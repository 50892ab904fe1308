//! Which files of a manifest tree hold a puzzle: every `content.toml`, at any
//! depth. Both the behavior and the content side read exactly these files.

use vstd::prelude::*;
use crate::text::same_str;

verus! {

/// The file name of a puzzle's manifest.
pub const MANIFEST_FILE_NAME: &'static str = "content.toml";

/// Whether a file with this name is a puzzle manifest.
pub fn is_content_toml(file_name: &str) -> (is_manifest: bool)
    ensures
        is_manifest == (file_name@ == MANIFEST_FILE_NAME@),
{
    same_str(file_name, MANIFEST_FILE_NAME)
}

} // verus!
