use vstd::prelude::*;
use crate::text::{law_trim_takes_only_slashes, leading_separators, push_str, trim_leading_separators};
use crate::url::{decode_file_name, decoded_name, encoded_name, law_decode_inverts_encode};

verus! {

/// Where a visitor who is not logged in is sent.
pub const LOGIN_LOCATION: &'static str = "/login";

/// The name under which an upload is stored when it names no file.
pub const DEFAULT_UPLOAD_NAME: &'static str = "upload.tmp";

/// The directory that a request names in its `path` query parameter; none
/// is the served directory itself.
pub open spec fn path_param(path: Option<&str>) -> Seq<char> {
    match path {
        Some(p) => p@,
        None => Seq::empty(),
    }
}

/// The `path` query parameter, or the empty path when there is none.
pub fn path_or_top<'a>(path: Option<&'a str>) -> (res: &'a str)
    ensures
        res@ == path_param(path),
{
    match path {
        Some(p) => p,
        None => {
            proof {
                reveal_strlit("");
            }
            ""
        },
    }
}

/// The directory that the listing shows for a request: its `path`
/// parameter without the `/` and `\` at its front.
pub open spec fn listed_dir(path: Option<&str>) -> Seq<char> {
    path_param(path).skip(leading_separators(path_param(path)) as int)
}

/// Decides a request for the listing: a visitor who is not logged in is
/// sent to the login page (`None`); else the listing shows the requested
/// directory, taken relative to the served one.
pub fn index<'a>(logged_in: bool, path: Option<&'a str>) -> (res: Option<&'a str>)
    ensures
        !logged_in ==> res is None,
        logged_in ==> (res matches Some(dir) && dir@ == listed_dir(path)),
{
    if !logged_in {
        return None;
    }
    Some(trim_leading_separators(path_or_top(path)))
}

/// Decides an upload: refused (`None`) unless the visitor is logged in;
/// else the files go into the requested directory.
pub fn upload<'a>(logged_in: bool, path: Option<&'a str>) -> (res: Option<&'a str>)
    ensures
        !logged_in ==> res is None,
        logged_in ==> (res matches Some(dir) && dir@ == path_param(path)),
{
    if !logged_in {
        return None;
    }
    Some(path_or_top(path))
}

/// The name under which an uploaded part is stored: the file name that the
/// part gives, else `upload.tmp`.
pub fn upload_file_name<'a>(given: Option<&'a str>) -> (res: &'a str)
    ensures
        given matches Some(n) ==> res == n,
        given is None ==> res == DEFAULT_UPLOAD_NAME,
{
    match given {
        Some(n) => n,
        None => DEFAULT_UPLOAD_NAME,
    }
}

/// Where the browser goes after an upload or a deletion: the listing of the
/// directory it acted in.
pub open spec fn listing_location_of(dir: Seq<char>) -> Seq<char> {
    "/?path="@ + dir
}

/// Where the browser goes after an upload or a deletion.
pub fn listing_location(dir: &str) -> (res: String)
    ensures
        res@ == listing_location_of(dir@),
{
    let mut out = String::new();
    push_str(&mut out, "/?path=");
    push_str(&mut out, dir);
    out
}

/// A file or directory that a request names: the directory it lies in,
/// relative to the served one, and its name.
#[derive(Debug)]
pub struct FileTarget {
    pub dir: String,
    pub name: String,
}

/// The entry that a request to download, preview or delete names, as its
/// directory and its name; none unless the visitor is logged in.
pub open spec fn target_of(logged_in: bool, raw_name: Seq<char>, path: Seq<char>) -> Option<
    (Seq<char>, Seq<char>),
> {
    if logged_in {
        Some((path, decoded_name(raw_name)))
    } else {
        None
    }
}

/// The directory and the name of a target.
pub open spec fn target_view(t: Option<FileTarget>) -> Option<(Seq<char>, Seq<char>)> {
    match t {
        Some(t) => Some((t.dir@, t.name@)),
        None => None,
    }
}

/// Decides a request to download, preview or delete an entry: refused
/// (`None`) unless the visitor is logged in; else the entry is the one in
/// the requested directory whose name the percent-encoded `raw_name` gives.
pub fn file_target(logged_in: bool, raw_name: &str, path: Option<&str>) -> (res: Option<
    FileTarget,
>)
    ensures
        target_view(res) == target_of(logged_in, raw_name@, path_param(path)),
{
    if !logged_in {
        return None;
    }
    let name = decode_file_name(raw_name);
    let mut dir = String::new();
    push_str(&mut dir, path_or_top(path));
    Some(FileTarget { dir, name })
}

/// The download, preview and delete links of the listing lead to the entry
/// they were made for: a logged-in request that carries the encoded name of
/// an entry and the directory it was listed in names that entry in that
/// directory.
pub proof fn law_links_name_their_entry(name: Seq<char>, dir: Seq<char>)
    ensures
        target_of(true, encoded_name(name), dir) == Some((dir, name)),
{
    law_decode_inverts_encode(name);
}

/// A listing request shows the directory its `path` names with only the
/// `/` and `\` characters at its front taken off: the path is those
/// characters followed by the listed directory, which itself starts with
/// neither; a path that starts with any other character is listed as it
/// stands, and no path at all lists the served directory.
pub proof fn law_listing_strips_only_slashes(path: Option<&str>)
    ensures
        ({
            let p = path_param(path);
            let d = listed_dir(path);
            &&& exists|k: int|
                0 <= k <= p.len() && d == p.skip(k) && (forall|i: int|
                    0 <= i < k ==> #[trigger] p[i] == '/' || p[i] == '\\')
            &&& d.len() > 0 ==> d[0] != '/' && d[0] != '\\'
            &&& p.len() > 0 && p[0] != '/' && p[0] != '\\' ==> d == p
            &&& path is None ==> d.len() == 0
        }),
{
    let p = path_param(path);
    law_trim_takes_only_slashes(p);
    let k = leading_separators(p) as int;
    assert(0 <= k <= p.len() && listed_dir(path) == p.skip(k));
    if listed_dir(path).len() > 0 {
        assert(listed_dir(path)[0] == p[k]);
    }
}

/// No request to download, preview or delete names an entry unless the
/// visitor is logged in.
pub proof fn law_files_need_login(raw_name: Seq<char>, path: Seq<char>)
    ensures
        target_of(false, raw_name, path) is None,
{
}

}
