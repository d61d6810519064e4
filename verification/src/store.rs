//! The file-backed store's verifiable part: where a named collection lives.
//! The reading and writing of the file itself is the caller's concern; this
//! module only derives and holds the path.

use vstd::prelude::*;

verus! {

/// A handle naming the file that holds one serialized aggregate.
pub struct JsonBookRepository {
    path: String,
}

impl JsonBookRepository {
    /// The file path this handle names.
    pub closed spec fn spec_path(&self) -> Seq<char> {
        self.path@
    }

    pub fn new(path: String) -> (r: JsonBookRepository)
        ensures
            r.spec_path() == path@,
    {
        JsonBookRepository { path }
    }

    pub fn path(&self) -> (r: &str)
        ensures
            r@ == self.spec_path(),
    {
        self.path.as_str()
    }
}

/// The file that stores the collection named `slug` inside `shelf_dir`.
pub fn book_path(shelf_dir: &str, slug: &str) -> (r: String)
    ensures
        r@ == shelf_dir@ + "/"@ + slug@ + ".json"@,
{
    let mut out = String::from_str(shelf_dir);
    out.append("/");
    out.append(slug);
    out.append(".json");
    out
}

} // verus!
