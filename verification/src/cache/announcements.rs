//! Where announcement PDFs are kept.

use vstd::prelude::*;
use vstd::string::*;

use super::{cache_root, is_present, join_path, joined, root_below};
use crate::error::{concat2, outcome, ErrorView, SiftError};
use crate::text::opt_str;

verus! {

/// The file name of an announcement.
pub fn filename(id: &str) -> (out: String)
    ensures
        out@ == id@ + ".pdf"@,
{
    concat2(id, ".pdf")
}

/// The directory of the announcements below a home directory.
pub open spec fn dir_below(home: Option<Seq<char>>) -> Result<Seq<char>, ErrorView> {
    match root_below(home) {
        Ok(root) => Ok(joined(root, "announcements"@)),
        Err(e) => Err(e),
    }
}

/// The directory of the announcements.
pub fn cache_dir(home: Option<&str>) -> (r: Result<String, SiftError>)
    ensures
        outcome(r) == dir_below(opt_str(home)),
{
    match cache_root(home) {
        Ok(root) => Ok(join_path(root.as_str(), "announcements")),
        Err(e) => Err(e),
    }
}

/// Where the PDF of an announcement is kept.
pub fn pdf_path(home: Option<&str>, id: &str) -> (r: Result<String, SiftError>)
    ensures
        outcome(r) == (match dir_below(opt_str(home)) {
            Ok(dir) => Ok::<Seq<char>, ErrorView>(joined(dir, id@ + ".pdf"@)),
            Err(e) => Err(e),
        }),
{
    match cache_dir(home) {
        Ok(dir) => {
            let name = filename(id);
            Ok(join_path(dir.as_str(), name.as_str()))
        },
        Err(e) => Err(e),
    }
}

/// Whether the PDF of an announcement is there, given what the file system
/// says of its place: a place is known, and a file of some length is there.
pub fn is_cached(home_known: bool, file_len: Option<u64>) -> (r: bool)
    ensures
        r == (home_known && (file_len matches Some(n) && n > 0)),
{
    home_known && is_present(file_len)
}

/// Where the copy of an announcement goes.
pub fn copy_to(id: &str, dst_dir: &str) -> (out: String)
    ensures
        out@ == joined(dst_dir@, id@ + ".pdf"@),
{
    let name = filename(id);
    join_path(dst_dir, name.as_str())
}

} // verus!
