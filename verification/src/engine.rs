//! Decisions the indexing engine makes on plain values.

use vstd::prelude::*;

verus! {

/// The file extensions that are indexed: markdown and plain text.
pub open spec fn indexable_extension(ext: Seq<char>) -> bool {
    ext == "md"@ || ext == "txt"@ || ext == "markdown"@
}

/// Whether a file with this extension is indexed (`md`, `txt`, `markdown`).
pub fn is_indexable_extension(ext: &str) -> (res: bool)
    ensures
        res == indexable_extension(ext@),
{
    let e = ext.to_owned();
    e == "md".to_owned() || e == "txt".to_owned() || e == "markdown".to_owned()
}

} // verus!
