//! Paths as text: joining a plain name onto a directory.

use vstd::prelude::*;

verus! {

/// A plain relative file name: not empty, not `.` or `..`, and free of the
/// characters that make a path rooted or prefixed on any platform (`/`,
/// `\` and `:`).
pub open spec fn is_plain_name(p: Seq<char>) -> bool {
    &&& p.len() > 0
    &&& p != seq!['.']
    &&& p != seq!['.', '.']
    &&& forall|i: int| 0 <= i < p.len() ==> #[trigger] p[i] != '/' && p[i] != '\\' && p[i] != ':'
}

/// A path separator character: `/`, or `\` (a separator on Windows).
pub open spec fn is_path_sep(c: char) -> bool {
    c == '/' || c == '\\'
}

/// A Windows verbatim path: one that begins with `\\?\`.
pub open spec fn is_verbatim(p: Seq<char>) -> bool {
    p.len() >= 4 && p.take(4) == seq!['\\', '\\', '?', '\\']
}

/// A bare Windows drive: a letter and `:`, as in `C:`.
pub open spec fn is_bare_drive(p: Seq<char>) -> bool {
    &&& p.len() == 2
    &&& p[1] == ':'
    &&& (('a' <= p[0] && p[0] <= 'z') || ('A' <= p[0] && p[0] <= 'Z'))
}

/// `p` is `base`, then nothing or one path separator, then `name`: just
/// `name` where `base` is empty; no separator where `base` ends in `/`;
/// exactly one where `base` ends in no separator and is not a bare drive.
pub open spec fn is_join_of(p: Seq<char>, base: Seq<char>, name: Seq<char>) -> bool {
    &&& exists|sep: Seq<char>|
        (sep.len() == 0 || (sep.len() == 1 && is_path_sep(sep[0]))) && p == base + sep + name
    &&& base.len() == 0 ==> p == name
    &&& base.len() > 0 && base.last() == '/' ==> p == base + name
    &&& base.len() > 0 && !is_path_sep(base.last()) && !is_bare_drive(base) ==> exists|c: char|
        is_path_sep(c) && p == base.push(c) + name
}

/// The text of std's `Path::join` of `name` onto `base`, as std joins paths
/// on the platform the library is built for.
pub uninterp spec fn joined_path(base: Seq<char>, name: Seq<char>) -> Seq<char>;

/// std's `Path::join` of a plain name onto `base`, as text (the result is
/// named `joined_path`). Where `base` is not a Windows verbatim path, std
/// appends the name after at most one separator: none where `base` is empty
/// or already ends in a separator (`/`, or on Windows also `\`) or is a
/// bare Windows drive, else one (`/` on Unix, `\` on Windows). Onto a verbatim path std also removes `.` and `..`
/// components; nothing more is stated there.
#[verifier::external_body]
pub(crate) fn path_join(base: &str, name: &str) -> (r: String)
    requires
        is_plain_name(name@),
    ensures
        r@ == joined_path(base@, name@),
        !is_verbatim(base@) ==> is_join_of(r@, base@, name@),
{
    std::path::Path::new(base).join(name).to_string_lossy().into_owned()
}

} // verus!
