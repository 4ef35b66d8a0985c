//! File-name extensions, as used for the file-type composition of a folder.

use vstd::prelude::*;

verus! {

/// Unicode lower-casing of a string, as `str::to_lowercase` performs it.
pub uninterp spec fn lowercase(s: Seq<char>) -> Seq<char>;

/// The extension `Path::extension` reads off a path, without the dot; empty
/// when there is none.
pub uninterp spec fn path_extension(name: Seq<char>) -> Seq<char>;

/// The key a file is grouped under: its lower-cased extension.
pub open spec fn ext_key(name: Seq<char>) -> Seq<char> {
    lowercase(path_extension(name))
}

/// `str::to_lowercase`: the Unicode lower-case mapping of `s`.
#[verifier::external_body]
fn to_lowercase(s: &str) -> (r: String)
    ensures
        r@ == lowercase(s@),
{
    s.to_lowercase()
}

/// `Path::extension` of `name`, as text; the empty text when it has none.
/// The name is UTF-8, so the extension reads back without loss.
#[verifier::external_body]
fn extension_text(name: &str) -> (r: String)
    ensures
        r@ == path_extension(name@),
{
    match std::path::Path::new(name).extension() {
        Some(e) => e.to_string_lossy().into_owned(),
        None => String::new(),
    }
}

/// Lowercased extension (no dot) of a file name; empty if it has none.
pub fn extension_of(name: &str) -> (r: String)
    ensures
        r@ == ext_key(name@),
{
    let ext = extension_text(name);
    to_lowercase(ext.as_str())
}

} // verus!
