//! Which names a file-system walk over a repository keeps.
//!
//! The walk itself reads directories and belongs to the binary; the
//! decisions it makes on each entry are here: which directory names are
//! never descended into, and which file names count as Markdown.

use vstd::prelude::*;
use crate::text::str_eq;

verus! {

/// Directory names that never hold source: build outputs, package
/// caches and tool state.
pub open spec fn skip_dir_name(name: Seq<char>) -> bool {
    ||| name == "target"@
    ||| name == "node_modules"@
    ||| name == ".venv"@
    ||| name == ".lake"@
    ||| name == ".ruff_cache"@
    ||| name == ".pytest_cache"@
    ||| name == ".cargo"@
}

/// Whether a directory of this name is left out of the walk.
pub fn is_skip_dir(name: &str) -> (r: bool)
    ensures
        r == skip_dir_name(name@),
{
    str_eq(name, "target") || str_eq(name, "node_modules") || str_eq(name, ".venv")
        || str_eq(name, ".lake") || str_eq(name, ".ruff_cache") || str_eq(name, ".pytest_cache")
        || str_eq(name, ".cargo")
}

/// The extensions of a Markdown file.
pub open spec fn markdown_extension(ext: Option<Seq<char>>) -> bool {
    ext == Some("md"@) || ext == Some("markdown"@)
}

/// Whether a path extension (as `Path::extension` reports it, when it is
/// valid UTF-8) names a Markdown file.
pub fn is_markdown_extension(ext: Option<&str>) -> (r: bool)
    ensures
        r == markdown_extension(
            match ext {
                Some(e) => Some(e@),
                None => None,
            },
        ),
{
    match ext {
        Some(e) => str_eq(e, "md") || str_eq(e, "markdown"),
        None => false,
    }
}

/// The extension that `std::path::Path::extension` finds in a path
/// written as text, when that extension is valid UTF-8.
pub uninterp spec fn path_extension(path: Seq<char>) -> Option<Seq<char>>;

/// Calls `std::path::Path::extension` on `path` and keeps the result when
/// it is valid UTF-8. The contract names the result and claims only that
/// it depends on the text of the path alone: the extension rules (the
/// last `.` of the final component, none for a name that starts with its
/// only `.`) are the standard library's and are not restated here.
#[verifier::external_body]
fn extension_text(path: &str) -> (r: Option<String>)
    ensures
        match r {
            Some(e) => path_extension(path@) == Some(e@),
            None => path_extension(path@) is None,
        },
{
    std::path::Path::new(path).extension().and_then(|s| s.to_str()).map(|s| s.to_string())
}

/// Whether the file at `path` is a Markdown file by its extension
/// (`*.md`, `*.markdown`).
pub fn is_markdown(path: &str) -> (r: bool)
    ensures
        r == markdown_extension(path_extension(path@)),
{
    let ext = extension_text(path);
    match ext {
        Some(e) => is_markdown_extension(Some(e.as_str())),
        None => is_markdown_extension(None),
    }
}

} // verus!
