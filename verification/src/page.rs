use vstd::prelude::*;
use crate::listing::FileEntry;
use crate::templates::{
    ACTION_SEPARATOR, BACK_REST, DELETE_HREF, DELETE_REST, DIR_SIZE, DOWNLOAD_HREF, DOWNLOAD_REST,
    KIND_DIR, KIND_FILE, LISTING_HREF, LOGIN_PAGE, OPEN_REST, PAGE_AFTER_BACK, PAGE_AFTER_FORM,
    PAGE_AFTER_PATH, PAGE_BOTTOM, PAGE_TOP, PATH_QUERY, PATH_SEPARATOR, PREVIEW_HREF, PREVIEW_REST,
    ROW_AFTER_KIND, ROW_AFTER_NAME, ROW_AFTER_SIZE, ROW_BOTTOM, ROW_TOP, SIZE_UNIT,
};
use crate::text::{
    ascii_lower, ascii_lower_char, ascii_upper, ascii_upper_char, decimal, ends_with, escape_html, escaped, has_suffix, lowercase, push_str, to_lowercase,
    u64_to_decimal,
};
use crate::url::{encode_file_name, encoded_name};
use vstd::utf8::is_ascii_chars;

verus! {

/// The directory whose contents the file manager serves.
pub const UPLOAD_DIR: &'static str = "C:\\Users\\ANKIT\\Desktop\\";

/// The login page.
pub fn login_form() -> (res: &'static str)
    ensures
        res == LOGIN_PAGE,
{
    LOGIN_PAGE
}

/// A lowercase file name that ends in one of the extensions that the
/// browser can show: `.png`, `.jpg`, `.jpeg`, `.gif`, `.mp4`, `.mp3`, `.txt`
/// or `.html`.
pub open spec fn preview_extension(lower: Seq<char>) -> bool {
    ||| has_suffix(lower, ".png"@)
    ||| has_suffix(lower, ".jpg"@)
    ||| has_suffix(lower, ".jpeg"@)
    ||| has_suffix(lower, ".gif"@)
    ||| has_suffix(lower, ".mp4"@)
    ||| has_suffix(lower, ".mp3"@)
    ||| has_suffix(lower, ".txt"@)
    ||| has_suffix(lower, ".html"@)
}

/// Whether a file whose name is `name` gets a preview link.
pub open spec fn previewable(name: Seq<char>) -> bool {
    preview_extension(lowercase(name))
}

proof fn lemma_suffix_of_concat(a: Seq<char>, b: Seq<char>, ext: Seq<char>)
    requires
        ext.len() <= b.len(),
    ensures
        has_suffix(a + b, ext) == has_suffix(b, ext),
{
    let ab = a + b;
    assert(ab.subrange(ab.len() - ext.len(), ab.len() as int) =~= b.subrange(
        b.len() - ext.len(),
        b.len() as int,
    ));
}

/// Only the last five characters of a lowercase name decide whether it has
/// an extension the browser can show: whatever stands before them does not
/// matter.
pub proof fn law_preview_extension_last_five(a: Seq<char>, b: Seq<char>)
    requires
        b.len() >= 5,
    ensures
        preview_extension(a + b) == preview_extension(b),
{
    reveal_strlit(".png");
    reveal_strlit(".jpg");
    reveal_strlit(".jpeg");
    reveal_strlit(".gif");
    reveal_strlit(".mp4");
    reveal_strlit(".mp3");
    reveal_strlit(".txt");
    reveal_strlit(".html");
    lemma_suffix_of_concat(a, b, ".png"@);
    lemma_suffix_of_concat(a, b, ".jpg"@);
    lemma_suffix_of_concat(a, b, ".jpeg"@);
    lemma_suffix_of_concat(a, b, ".gif"@);
    lemma_suffix_of_concat(a, b, ".mp4"@);
    lemma_suffix_of_concat(a, b, ".mp3"@);
    lemma_suffix_of_concat(a, b, ".txt"@);
    lemma_suffix_of_concat(a, b, ".html"@);
}

proof fn lemma_ascii_case(name: Seq<char>)
    requires
        is_ascii_chars(name),
    ensures
        is_ascii_chars(ascii_upper(name)),
        is_ascii_chars(ascii_lower(name)),
        ascii_lower(ascii_upper(name)) == ascii_lower(name),
        ascii_lower(ascii_lower(name)) == ascii_lower(name),
{
    assert forall|i: int| 0 <= i < name.len() implies ascii_lower_char(ascii_upper_char(name[i]))
        == ascii_lower_char(name[i]) && ascii_lower_char(ascii_lower_char(name[i]))
        == ascii_lower_char(name[i]) && '\0' <= ascii_upper_char(name[i]) <= '\u{7f}' && '\0'
        <= ascii_lower_char(name[i]) <= '\u{7f}' by {
        let c = name[i];
        assert('\0' <= c <= '\u{7f}');
    }
    assert(ascii_lower(ascii_upper(name)) =~= ascii_lower(name));
    assert(ascii_lower(ascii_lower(name)) =~= ascii_lower(name));
}

/// For an ASCII file name, writing it in upper or in lower case does not
/// change whether it gets a preview link.
pub proof fn law_preview_ignores_ascii_case(name: Seq<char>)
    requires
        is_ascii_chars(name),
    ensures
        previewable(ascii_upper(name)) == previewable(name),
        previewable(ascii_lower(name)) == previewable(name),
{
    lemma_ascii_case(name);
}

/// For an ASCII file name, only its last five characters decide whether it
/// gets a preview link.
pub proof fn law_preview_last_five_ascii(a: Seq<char>, b: Seq<char>)
    requires
        is_ascii_chars(a + b),
        b.len() >= 5,
    ensures
        previewable(a + b) == previewable(b),
{
    vstd::utf8::is_ascii_chars_concat(a + b, a, b);
    assert(ascii_lower(a + b) =~= ascii_lower(a) + ascii_lower(b));
    law_preview_extension_last_five(ascii_lower(a), ascii_lower(b));
}

/// Whether a lowercase file name ends in an extension the browser can show.
pub fn has_preview_extension(lower: &str) -> (res: bool)
    ensures
        res == preview_extension(lower@),
{
    ends_with(lower, ".png") || ends_with(lower, ".jpg") || ends_with(lower, ".jpeg")
        || ends_with(lower, ".gif") || ends_with(lower, ".mp4") || ends_with(lower, ".mp3")
        || ends_with(lower, ".txt") || ends_with(lower, ".html")
}

/// Whether a file gets a preview link: its name, in lowercase, ends in an
/// extension the browser can show.
pub fn is_previewable(name: &str) -> (res: bool)
    ensures
        res == previewable(name@),
{
    let lower = to_lowercase(name);
    has_preview_extension(lower.as_str())
}

/// The link to the preview of a file whose encoded name is `enc`, in the
/// directory `rel`.
pub open spec fn preview_link_of(enc: Seq<char>, rel: Seq<char>) -> Seq<char> {
    PREVIEW_HREF@ + enc + PATH_QUERY@ + rel + PREVIEW_REST@
}

/// The link that deletes the entry whose encoded name is `enc` in `rel`.
pub open spec fn delete_link_of(enc: Seq<char>, rel: Seq<char>) -> Seq<char> {
    DELETE_HREF@ + enc + PATH_QUERY@ + rel + DELETE_REST@
}

/// What a directory offers: open it, or delete it.
pub open spec fn dir_actions_of(enc: Seq<char>, rel: Seq<char>) -> Seq<char> {
    LISTING_HREF@ + rel + PATH_SEPARATOR@ + enc + OPEN_REST@ + delete_link_of(enc, rel)
}

/// What a file offers: download it, preview it when it can be shown, or
/// delete it.
pub open spec fn file_actions_of(enc: Seq<char>, rel: Seq<char>, previewable: bool) -> Seq<char> {
    DOWNLOAD_HREF@ + enc + PATH_QUERY@ + rel + DOWNLOAD_REST@ + (if previewable {
        preview_link_of(enc, rel)
    } else {
        Seq::empty()
    }) + ACTION_SEPARATOR@ + delete_link_of(enc, rel)
}

/// The size column: a dash for a directory, else the size in bytes.
pub open spec fn size_text_of(entry: FileEntry) -> Seq<char> {
    if entry.is_dir {
        DIR_SIZE@
    } else {
        decimal(entry.size as nat) + SIZE_UNIT@
    }
}

/// The listing's card for one entry in the directory `rel`, with or
/// without a preview link.
pub open spec fn row_of(entry: FileEntry, rel: Seq<char>, previewable: bool) -> Seq<char> {
    let enc = encoded_name(entry.name@);
    ROW_TOP@ + escaped(entry.name@) + ROW_AFTER_NAME@ + size_text_of(entry) + ROW_AFTER_SIZE@ + (
    if entry.is_dir {
        KIND_DIR@
    } else {
        KIND_FILE@
    }) + ROW_AFTER_KIND@ + (if entry.is_dir {
        dir_actions_of(enc, rel)
    } else {
        file_actions_of(enc, rel, previewable)
    }) + ROW_BOTTOM@
}

/// The cards for all the entries of the directory `rel`, in order.
pub open spec fn rows_of(entries: Seq<FileEntry>, rel: Seq<char>) -> Seq<char>
    decreases entries.len(),
{
    if entries.len() == 0 {
        Seq::empty()
    } else {
        rows_of(entries.drop_last(), rel) + row_of(
            entries.last(),
            rel,
            previewable(entries.last().name@),
        )
    }
}

/// The link back to the directory `parent`; none at the top directory.
pub open spec fn back_link_of(rel: Seq<char>, parent: Seq<char>) -> Seq<char> {
    if rel.len() == 0 {
        Seq::empty()
    } else {
        LISTING_HREF@ + parent + BACK_REST@
    }
}

/// The directory that the page names: the served directory itself at the
/// top, else the requested one.
pub open spec fn shown_path_of(rel: Seq<char>) -> Seq<char> {
    if rel.len() == 0 {
        UPLOAD_DIR@
    } else {
        rel
    }
}

/// The listing page of the directory `rel`, whose parent is `parent`, with
/// the cards `rows`.
pub open spec fn page_of(rows: Seq<char>, rel: Seq<char>, parent: Seq<char>) -> Seq<char> {
    PAGE_TOP@ + escaped(shown_path_of(rel)) + PAGE_AFTER_PATH@ + back_link_of(rel, parent)
        + PAGE_AFTER_BACK@ + rel + PAGE_AFTER_FORM@ + rows + PAGE_BOTTOM@
}

fn push_preview_link(out: &mut String, enc: &str, rel: &str)
    ensures
        final(out)@ == old(out)@ + preview_link_of(enc@, rel@),
{
    push_str(out, PREVIEW_HREF);
    push_str(out, enc);
    push_str(out, PATH_QUERY);
    push_str(out, rel);
    push_str(out, PREVIEW_REST);
}

fn push_delete_link(out: &mut String, enc: &str, rel: &str)
    ensures
        final(out)@ == old(out)@ + delete_link_of(enc@, rel@),
{
    push_str(out, DELETE_HREF);
    push_str(out, enc);
    push_str(out, PATH_QUERY);
    push_str(out, rel);
    push_str(out, DELETE_REST);
}

fn push_dir_actions(out: &mut String, enc: &str, rel: &str)
    ensures
        final(out)@ == old(out)@ + dir_actions_of(enc@, rel@),
{
    push_str(out, LISTING_HREF);
    push_str(out, rel);
    push_str(out, PATH_SEPARATOR);
    push_str(out, enc);
    push_str(out, OPEN_REST);
    push_delete_link(out, enc, rel);
}

fn push_file_actions(out: &mut String, enc: &str, rel: &str, previewable: bool)
    ensures
        final(out)@ == old(out)@ + file_actions_of(enc@, rel@, previewable),
{
    push_str(out, DOWNLOAD_HREF);
    push_str(out, enc);
    push_str(out, PATH_QUERY);
    push_str(out, rel);
    push_str(out, DOWNLOAD_REST);
    if previewable {
        push_preview_link(out, enc, rel);
    }
    push_str(out, ACTION_SEPARATOR);
    push_delete_link(out, enc, rel);
}

/// The listing's card for one entry in the directory `rel_path`; a file
/// gets a preview link when `previewable` holds.
pub fn render_row(entry: &FileEntry, rel_path: &str, previewable: bool) -> (res: String)
    ensures
        res@ == row_of(*entry, rel_path@, previewable),
{
    let enc = encode_file_name(entry.name.as_str());
    let name = escape_html(entry.name.as_str());
    let mut out = String::new();
    push_str(&mut out, ROW_TOP);
    push_str(&mut out, name.as_str());
    push_str(&mut out, ROW_AFTER_NAME);
    if entry.is_dir {
        push_str(&mut out, DIR_SIZE);
    } else {
        let size = u64_to_decimal(entry.size);
        push_str(&mut out, size.as_str());
        push_str(&mut out, SIZE_UNIT);
    }
    push_str(&mut out, ROW_AFTER_SIZE);
    if entry.is_dir {
        push_str(&mut out, KIND_DIR);
    } else {
        push_str(&mut out, KIND_FILE);
    }
    push_str(&mut out, ROW_AFTER_KIND);
    if entry.is_dir {
        push_dir_actions(&mut out, enc.as_str(), rel_path);
    } else {
        push_file_actions(&mut out, enc.as_str(), rel_path, previewable);
    }
    push_str(&mut out, ROW_BOTTOM);
    out
}

/// The listing page of the directory `rel_path`, whose parent directory is
/// `parent`, holding the cards `rows`.
pub fn render_page(rows: &str, rel_path: &str, parent: &str) -> (res: String)
    ensures
        res@ == page_of(rows@, rel_path@, parent@),
{
    let mut out = String::new();
    push_str(&mut out, PAGE_TOP);
    let top = rel_path.is_empty();
    let shown = if top { escape_html(UPLOAD_DIR) } else { escape_html(rel_path) };
    push_str(&mut out, shown.as_str());
    push_str(&mut out, PAGE_AFTER_PATH);
    if !top {
        push_str(&mut out, LISTING_HREF);
        push_str(&mut out, parent);
        push_str(&mut out, BACK_REST);
    }
    push_str(&mut out, PAGE_AFTER_BACK);
    push_str(&mut out, rel_path);
    push_str(&mut out, PAGE_AFTER_FORM);
    push_str(&mut out, rows);
    push_str(&mut out, PAGE_BOTTOM);
    out
}

/// A relative path made of plain names: not empty, without `\\` or `:`,
/// neither starting nor ending with `/`, and with no empty, `.` or `..`
/// component between its `/` separators.
pub open spec fn plain_relative_path(p: Seq<char>) -> bool {
    &&& p.len() > 0
    &&& forall|i: int| 0 <= i < p.len() ==> #[trigger] p[i] != '\\' && p[i] != ':'
    &&& p[0] != '/'
    &&& p.last() != '/'
    &&& forall|i: int| 0 <= i < p.len() - 1 ==> !(#[trigger] p[i] == '/' && p[i + 1] == '/')
    &&& forall|i: int|
        0 <= i < p.len() && #[trigger] p[i] == '.' && (i == 0 || p[i - 1] == '/') ==> {
            &&& !(i + 1 == p.len() || p[i + 1] == '/')
            &&& !(i + 1 < p.len() && p[i + 1] == '.' && (i + 2 == p.len() || p[i + 2] == '/'))
        }
}

/// `p` up to its last `/`, without it; empty when `p` holds no `/`.
pub open spec fn parent_dir(p: Seq<char>) -> Seq<char>
    decreases p.len(),
{
    if p.len() == 0 {
        p
    } else if p.last() == '/' {
        p.drop_last()
    } else {
        parent_dir(p.drop_last())
    }
}

/// Calls `Path::parent` on `p` and reads the parent back as a `&str`. The
/// standard library documents it as the path without its final component,
/// so it is always a prefix of `p`. For a relative path of plain names,
/// whose components are separated by `/` alone on every platform, that is
/// the path up to its last `/`. Where the components of other paths end
/// depends on the platform's separators and prefixes, and is not stated.
#[verifier::external_body]
fn path_parent(p: &str) -> (res: Option<&str>)
    ensures
        res matches Some(q) ==> q@.len() <= p@.len() && q@ == p@.take(q@.len() as int),
        res matches Some(q) ==> (plain_relative_path(p@) ==> q@ == parent_dir(p@)),
        plain_relative_path(p@) ==> res is Some,
{
    match std::path::Path::new(p).parent() {
        Some(q) => q.to_str(),
        None => None,
    }
}

/// The cards for `entries` in the directory `rel_path`, in order.
pub fn render_rows(entries: &Vec<FileEntry>, rel_path: &str) -> (res: String)
    ensures
        res@ == rows_of(entries@, rel_path@),
{
    let mut rows = String::new();
    let mut i: usize = 0;
    while i < entries.len()
        invariant
            i <= entries@.len(),
            rows@ == rows_of(entries@.take(i as int), rel_path@),
        decreases entries.len() - i,
    {
        let entry = &entries[i];
        let preview = is_previewable(entry.name.as_str());
        let row = render_row(entry, rel_path, preview);
        push_str(&mut rows, row.as_str());
        proof {
            assert(entries@.take(i + 1).drop_last() =~= entries@.take(i as int));
        }
        i = i + 1;
    }
    proof {
        assert(entries@.take(entries@.len() as int) =~= entries@);
    }
    rows
}

/// The listing page of the directory `rel_path` with the given entries, in
/// their order. The back link leads to the parent directory as the platform
/// reads the path: some prefix of `rel_path`, and for a relative path of
/// plain names the path up to its last `/`.
pub fn render_index(entries: &Vec<FileEntry>, rel_path: &str) -> (res: String)
    ensures
        plain_relative_path(rel_path@) ==> res@ == page_of(
            rows_of(entries@, rel_path@),
            rel_path@,
            parent_dir(rel_path@),
        ),
        exists|k: int|
            0 <= k <= rel_path@.len() && res@ == page_of(
                rows_of(entries@, rel_path@),
                rel_path@,
                #[trigger] rel_path@.take(k),
            ),
{
    let rows = render_rows(entries, rel_path);
    let parent = if rel_path.is_empty() {
        ""
    } else {
        match path_parent(rel_path) {
            Some(q) => q,
            None => "",
        }
    };
    let res = render_page(rows.as_str(), rel_path, parent);
    proof {
        reveal_strlit("");
        assert(parent@ =~= rel_path@.take(parent@.len() as int));
        assert(res@ == page_of(
            rows_of(entries@, rel_path@),
            rel_path@,
            rel_path@.take(parent@.len() as int),
        ));
    }
    res
}


/// `t` stands somewhere in `s` as a run of consecutive characters.
pub open spec fn occurs_in(t: Seq<char>, s: Seq<char>) -> bool {
    exists|k: int| 0 <= k && k + t.len() <= s.len() && #[trigger] s.subrange(k, k + t.len()) == t
}

proof fn lemma_occurs_between(a: Seq<char>, t: Seq<char>, b: Seq<char>, s: Seq<char>)
    requires
        s == a + t + b,
    ensures
        occurs_in(t, s),
{
    assert(s.subrange(a.len() as int, a.len() + t.len() as int) =~= t);
}

/// A file gets a preview link exactly when the lowercase form of its name
/// ends in `.png`, `.jpg`, `.jpeg`, `.gif`, `.mp4`, `.mp3`, `.txt` or
/// `.html`.
pub proof fn law_preview_by_extension(name: Seq<char>)
    ensures
        ({
            let l = lowercase(name);
            let ends = |e: Seq<char>| l.len() >= e.len() && l.skip(l.len() - e.len()) == e;
            previewable(name) <==> {
                ||| ends(seq!['.', 'p', 'n', 'g'])
                ||| ends(seq!['.', 'j', 'p', 'g'])
                ||| ends(seq!['.', 'j', 'p', 'e', 'g'])
                ||| ends(seq!['.', 'g', 'i', 'f'])
                ||| ends(seq!['.', 'm', 'p', '4'])
                ||| ends(seq!['.', 'm', 'p', '3'])
                ||| ends(seq!['.', 't', 'x', 't'])
                ||| ends(seq!['.', 'h', 't', 'm', 'l'])
            }
        }),
{
    let l = lowercase(name);
    reveal_strlit(".png");
    reveal_strlit(".jpg");
    reveal_strlit(".jpeg");
    reveal_strlit(".gif");
    reveal_strlit(".mp4");
    reveal_strlit(".mp3");
    reveal_strlit(".txt");
    reveal_strlit(".html");
    assert(".png"@ =~= seq!['.', 'p', 'n', 'g']);
    assert(".jpg"@ =~= seq!['.', 'j', 'p', 'g']);
    assert(".jpeg"@ =~= seq!['.', 'j', 'p', 'e', 'g']);
    assert(".gif"@ =~= seq!['.', 'g', 'i', 'f']);
    assert(".mp4"@ =~= seq!['.', 'm', 'p', '4']);
    assert(".mp3"@ =~= seq!['.', 'm', 'p', '3']);
    assert(".txt"@ =~= seq!['.', 't', 'x', 't']);
    assert(".html"@ =~= seq!['.', 'h', 't', 'm', 'l']);
    if l.len() >= 4 {
        assert(l.subrange(l.len() - 4, l.len() as int) =~= l.skip(l.len() - 4));
    }
    if l.len() >= 5 {
        assert(l.subrange(l.len() - 5, l.len() as int) =~= l.skip(l.len() - 5));
    }
}

#[verifier::rlimit(40)]
proof fn lemma_file_row_shape(entry: FileEntry, rel: Seq<char>, previewable: bool)
    requires
        !entry.is_dir,
    ensures
        ({
            let enc = encoded_name(entry.name@);
            row_of(entry, rel, previewable) == ROW_TOP@ + escaped(entry.name@) + (ROW_AFTER_NAME@
                + decimal(entry.size as nat) + SIZE_UNIT@ + ROW_AFTER_SIZE@ + KIND_FILE@
                + ROW_AFTER_KIND@) + (DOWNLOAD_HREF@ + enc + PATH_QUERY@ + rel + DOWNLOAD_REST@) + (
            if previewable {
                PREVIEW_HREF@ + enc + PATH_QUERY@ + rel + PREVIEW_REST@
            } else {
                Seq::empty()
            }) + (ACTION_SEPARATOR@ + (DELETE_HREF@ + enc + PATH_QUERY@ + rel + DELETE_REST@)
                + ROW_BOTTOM@)
        }),
{
    let enc = encoded_name(entry.name@);
    assert(size_text_of(entry) == decimal(entry.size as nat) + SIZE_UNIT@);
    assert(row_of(entry, rel, previewable) =~= ROW_TOP@ + escaped(entry.name@) + (ROW_AFTER_NAME@
        + decimal(entry.size as nat) + SIZE_UNIT@ + ROW_AFTER_SIZE@ + KIND_FILE@ + ROW_AFTER_KIND@)
        + (DOWNLOAD_HREF@ + enc + PATH_QUERY@ + rel + DOWNLOAD_REST@) + (if previewable {
        PREVIEW_HREF@ + enc + PATH_QUERY@ + rel + PREVIEW_REST@
    } else {
        Seq::empty()
    }) + (ACTION_SEPARATOR@ + (DELETE_HREF@ + enc + PATH_QUERY@ + rel + DELETE_REST@)
        + ROW_BOTTOM@));
}

/// Every file's card links to downloading and to deleting that file in the
/// listed directory, whether or not it can be previewed, and it links to
/// the preview in that directory when it can.
pub proof fn law_file_card_links(entry: FileEntry, rel: Seq<char>, previewable: bool)
    requires
        !entry.is_dir,
    ensures
        ({
            let enc = encoded_name(entry.name@);
            let row = row_of(entry, rel, previewable);
            &&& occurs_in(DOWNLOAD_HREF@ + enc + PATH_QUERY@ + rel + DOWNLOAD_REST@, row)
            &&& occurs_in(DELETE_HREF@ + enc + PATH_QUERY@ + rel + DELETE_REST@, row)
            &&& previewable ==> occurs_in(PREVIEW_HREF@ + enc + PATH_QUERY@ + rel + PREVIEW_REST@, row)
            &&& occurs_in(escaped(entry.name@), row)
            &&& occurs_in(ROW_AFTER_NAME@ + decimal(entry.size as nat) + SIZE_UNIT@ + ROW_AFTER_SIZE@
                + KIND_FILE@ + ROW_AFTER_KIND@, row)
        }),
{
    let enc = encoded_name(entry.name@);
    let row = row_of(entry, rel, previewable);
    let name = escaped(entry.name@);
    let info = ROW_AFTER_NAME@ + decimal(entry.size as nat) + SIZE_UNIT@ + ROW_AFTER_SIZE@
        + KIND_FILE@ + ROW_AFTER_KIND@;
    let download = DOWNLOAD_HREF@ + enc + PATH_QUERY@ + rel + DOWNLOAD_REST@;
    let preview = PREVIEW_HREF@ + enc + PATH_QUERY@ + rel + PREVIEW_REST@;
    let delete = DELETE_HREF@ + enc + PATH_QUERY@ + rel + DELETE_REST@;
    let middle: Seq<char> = if previewable { preview } else { Seq::empty() };
    let tail = ACTION_SEPARATOR@ + delete + ROW_BOTTOM@;
    lemma_file_row_shape(entry, rel, previewable);
    assert(row == ROW_TOP@ + name + info + download + middle + tail);
    assert(occurs_in(name, row)) by {
        assert(row =~= ROW_TOP@ + name + (info + download + middle + tail));
        lemma_occurs_between(ROW_TOP@, name, info + download + middle + tail, row);
    }
    assert(occurs_in(info, row)) by {
        assert(row =~= (ROW_TOP@ + name) + info + (download + middle + tail));
        lemma_occurs_between(ROW_TOP@ + name, info, download + middle + tail, row);
    }
    assert(occurs_in(download, row)) by {
        assert(row =~= (ROW_TOP@ + name + info) + download + (middle + tail));
        lemma_occurs_between(ROW_TOP@ + name + info, download, middle + tail, row);
    }
    assert(occurs_in(delete, row)) by {
        assert(row =~= (ROW_TOP@ + name + info + download + middle + ACTION_SEPARATOR@) + delete
            + ROW_BOTTOM@);
        lemma_occurs_between(
            ROW_TOP@ + name + info + download + middle + ACTION_SEPARATOR@,
            delete,
            ROW_BOTTOM@,
            row,
        );
    }
    if previewable {
        assert(occurs_in(preview, row)) by {
            assert(row =~= (ROW_TOP@ + name + info + download) + preview + tail);
            lemma_occurs_between(ROW_TOP@ + name + info + download, preview, tail, row);
        }
    }
}

/// Every directory's card links to opening it under the listed directory
/// and to deleting it there.
pub proof fn law_dir_card_links(entry: FileEntry, rel: Seq<char>, previewable: bool)
    requires
        entry.is_dir,
    ensures
        ({
            let enc = encoded_name(entry.name@);
            let row = row_of(entry, rel, previewable);
            &&& occurs_in(LISTING_HREF@ + rel + PATH_SEPARATOR@ + enc + OPEN_REST@, row)
            &&& occurs_in(DELETE_HREF@ + enc + PATH_QUERY@ + rel + DELETE_REST@, row)
            &&& occurs_in(ROW_TOP@ + escaped(entry.name@) + ROW_AFTER_NAME@ + DIR_SIZE@
                + ROW_AFTER_SIZE@ + KIND_DIR@ + ROW_AFTER_KIND@, row)
        }),
{
    let enc = encoded_name(entry.name@);
    let row = row_of(entry, rel, previewable);
    let head = ROW_TOP@ + escaped(entry.name@) + ROW_AFTER_NAME@ + size_text_of(entry)
        + ROW_AFTER_SIZE@ + KIND_DIR@ + ROW_AFTER_KIND@;
    let open = LISTING_HREF@ + rel + PATH_SEPARATOR@ + enc + OPEN_REST@;
    let delete = DELETE_HREF@ + enc + PATH_QUERY@ + rel + DELETE_REST@;
    assert(row =~= head + open + (delete + ROW_BOTTOM@));
    lemma_occurs_between(head, open, delete + ROW_BOTTOM@, row);
    assert(row =~= (head + open) + delete + ROW_BOTTOM@);
    lemma_occurs_between(head + open, delete, ROW_BOTTOM@, row);
    assert(row =~= Seq::<char>::empty() + head + (open + delete + ROW_BOTTOM@));
    lemma_occurs_between(Seq::empty(), head, open + delete + ROW_BOTTOM@, row);
}

/// The listing holds one card per entry, in the entries' order, none left
/// out: no entries give no cards, one entry gives its own card (with a
/// preview link exactly when it can be previewed), and the cards of two
/// runs of entries are the cards of the first followed by those of the
/// second.
pub proof fn law_rows_one_card_per_entry(
    a: Seq<FileEntry>,
    b: Seq<FileEntry>,
    e: FileEntry,
    rel: Seq<char>,
)
    ensures
        rows_of(Seq::empty(), rel) == Seq::<char>::empty(),
        rows_of(seq![e], rel) == row_of(e, rel, previewable(e.name@)),
        rows_of(a + b, rel) == rows_of(a, rel) + rows_of(b, rel),
    decreases b.len(),
{
    let one = seq![e];
    assert(one.drop_last() =~= Seq::<FileEntry>::empty());
    assert(rows_of(one.drop_last(), rel) == Seq::<char>::empty());
    assert(rows_of(one, rel) =~= row_of(e, rel, previewable(e.name@)));
    if b.len() == 0 {
        assert(a + b =~= a);
        assert(rows_of(a, rel) + rows_of(b, rel) =~= rows_of(a, rel));
    } else {
        law_rows_one_card_per_entry(a, b.drop_last(), e, rel);
        assert((a + b).drop_last() =~= a + b.drop_last());
        assert((a + b).last() == b.last());
        let r = row_of(b.last(), rel, previewable(b.last().name@));
        assert(rows_of(a + b, rel) == rows_of(a + b.drop_last(), rel) + r);
        assert(rows_of(a, rel) + rows_of(b, rel) =~= rows_of(a, rel) + rows_of(b.drop_last(), rel)
            + r);
    }
}


/// The listing page shows the directory it lists (escaped, and the served
/// directory itself at the top), holds the cards as given, has its upload
/// form post to the listed directory, and links back to the parent exactly
/// when it is not at the top.
pub proof fn law_page_parts(rows: Seq<char>, rel: Seq<char>, parent: Seq<char>)
    ensures
        ({
            let page = page_of(rows, rel, parent);
            &&& occurs_in(PAGE_TOP@ + escaped(if rel.len() == 0 { UPLOAD_DIR@ } else { rel })
                + PAGE_AFTER_PATH@, page)
            &&& occurs_in(PAGE_AFTER_BACK@ + rel + PAGE_AFTER_FORM@ + rows + PAGE_BOTTOM@, page)
            &&& rel.len() > 0 ==> occurs_in(PAGE_AFTER_PATH@ + LISTING_HREF@ + parent + BACK_REST@
                + PAGE_AFTER_BACK@, page)
            &&& rel.len() == 0 ==> occurs_in(PAGE_AFTER_PATH@ + PAGE_AFTER_BACK@, page)
        }),
{
    let page = page_of(rows, rel, parent);
    let shown = escaped(shown_path_of(rel));
    let back = back_link_of(rel, parent);
    let top = PAGE_TOP@ + shown + PAGE_AFTER_PATH@;
    let bottom = PAGE_AFTER_BACK@ + rel + PAGE_AFTER_FORM@ + rows + PAGE_BOTTOM@;
    let mid = PAGE_AFTER_PATH@ + back + PAGE_AFTER_BACK@;
    let rest = rel + PAGE_AFTER_FORM@ + rows + PAGE_BOTTOM@;
    assert(page == PAGE_TOP@ + shown + PAGE_AFTER_PATH@ + back + PAGE_AFTER_BACK@ + rel
        + PAGE_AFTER_FORM@ + rows + PAGE_BOTTOM@);
    assert(occurs_in(top, page)) by {
        assert(page =~= Seq::<char>::empty() + top + (back + bottom));
        lemma_occurs_between(Seq::empty(), top, back + bottom, page);
    }
    assert(occurs_in(bottom, page)) by {
        assert(page =~= (top + back) + bottom + Seq::<char>::empty());
        lemma_occurs_between(top + back, bottom, Seq::empty(), page);
    }
    assert(occurs_in(mid, page)) by {
        assert(page =~= (PAGE_TOP@ + shown) + mid + rest);
        lemma_occurs_between(PAGE_TOP@ + shown, mid, rest, page);
    }
    if rel.len() == 0 {
        assert(mid =~= PAGE_AFTER_PATH@ + PAGE_AFTER_BACK@);
    } else {
        assert(mid =~= PAGE_AFTER_PATH@ + LISTING_HREF@ + parent + BACK_REST@ + PAGE_AFTER_BACK@);
    }
}

}
