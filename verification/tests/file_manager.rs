use file_manager::listing::{sort_entries, sort_keyed, FileEntry};
use file_manager::login::{
    credentials_match, is_logged_in, login, login_body, login_location, login_status, logout,
    LoginOutcome, SessionState,
};
use file_manager::page::{
    has_preview_extension, is_previewable, login_form, render_index, render_page, render_row,
    UPLOAD_DIR,
};
use file_manager::routes::{file_target, index, listing_location, upload, upload_file_name};
use file_manager::text::{
    ends_with, escape_html, i64_to_decimal, same_text, trim_leading_separators, u64_to_decimal,
};
use file_manager::url::{decode_file_name, encode_file_name};

fn entry(name: &str, is_dir: bool, size: u64) -> FileEntry {
    FileEntry { name: name.to_string(), is_dir, size }
}

fn fresh() -> SessionState {
    SessionState { logged_in: false, failed_attempts: None, lock_until: None }
}

#[test]
fn escape_html_replaces_markup_characters() {
    assert_eq!(escape_html("a<b>&c"), "a&lt;b&gt;&amp;c");
    assert_eq!(escape_html("plain name.txt"), "plain name.txt");
    assert_eq!(escape_html("&amp;"), "&amp;amp;");
    assert_eq!(escape_html(""), "");
}

#[test]
fn escape_html_matches_three_replacements() {
    for s in ["<script>alert('x')</script>", "R&D > Q&A", "é<ü>&"] {
        let expected = s.replace('&', "&amp;").replace('<', "&lt;").replace('>', "&gt;");
        assert_eq!(escape_html(s), expected);
        assert!(!escape_html(s).contains('<'));
        assert!(!escape_html(s).contains('>'));
    }
}

#[test]
fn decimal_notation() {
    assert_eq!(u64_to_decimal(0), "0");
    assert_eq!(u64_to_decimal(7), "7");
    assert_eq!(u64_to_decimal(1024), "1024");
    assert_eq!(u64_to_decimal(u64::MAX), u64::MAX.to_string());
    assert_eq!(i64_to_decimal(-42), "-42");
    assert_eq!(i64_to_decimal(i64::MIN), i64::MIN.to_string());
    assert_eq!(i64_to_decimal(2), "2");
}

#[test]
fn text_helpers() {
    assert!(same_text("admin", "admin"));
    assert!(!same_text("admin", "Admin"));
    assert!(!same_text("admin", "admin "));
    assert!(ends_with("photo.png", ".png"));
    assert!(!ends_with("png", ".png"));
    assert_eq!(trim_leading_separators("\\//docs/x"), "docs/x");
    assert_eq!(trim_leading_separators("docs/"), "docs/");
    assert_eq!(trim_leading_separators("///"), "");
}

#[test]
fn encode_file_name_escapes_all_but_letters_and_digits() {
    assert_eq!(encode_file_name("my file.txt"), "my%20file%2Etxt");
    assert_eq!(encode_file_name("abcXYZ019"), "abcXYZ019");
    assert_eq!(encode_file_name("é"), "%C3%A9");
    assert_eq!(encode_file_name("a/b?c"), "a%2Fb%3Fc");
}

#[test]
fn decode_file_name_reads_escapes() {
    assert_eq!(decode_file_name("foo%20bar%3f"), "foo bar?");
    assert_eq!(decode_file_name("100%"), "100%");
    assert_eq!(decode_file_name("%zz%4"), "%zz%4");
    assert_eq!(decode_file_name("%C3%A9"), "é");
    assert_eq!(decode_file_name("%FF"), "\u{FFFD}");
}

#[test]
fn decode_inverts_encode() {
    for name in ["report 2024.pdf", "é ü ß.txt", "a%41b", "<x>&y", "", "📂 dir"] {
        assert_eq!(decode_file_name(&encode_file_name(name)), name);
    }
}

#[test]
fn preview_extensions() {
    assert!(is_previewable("PHOTO.PNG"));
    assert!(is_previewable("clip.Mp4"));
    assert!(is_previewable("page.html"));
    assert!(!is_previewable("archive.zip"));
    assert!(!is_previewable("png"));
    assert!(has_preview_extension("notes.txt"));
    assert!(!has_preview_extension("NOTES.TXT"));
}

#[test]
fn sort_entries_orders_by_lowercase_name() {
    let sorted = sort_entries(vec![
        entry("b.txt", false, 1),
        entry("A.txt", false, 2),
        entry("a.txt", false, 3),
        entry("C", true, 0),
    ]);
    let names: Vec<&str> = sorted.iter().map(|e| e.name.as_str()).collect();
    assert_eq!(names, vec!["A.txt", "a.txt", "b.txt", "C"]);
    assert_eq!(sorted[0].size, 2);
    assert_eq!(sorted[1].size, 3);
    assert!(sorted[3].is_dir);
}

#[test]
fn sort_entries_keeps_every_entry() {
    let sorted = sort_entries(vec![entry("z", false, 1), entry("Z", false, 2), entry("y", false, 3)]);
    assert_eq!(sorted.len(), 3);
    let sizes: Vec<u64> = sorted.iter().map(|e| e.size).collect();
    assert_eq!(sizes, vec![3, 1, 2]);
}

#[test]
fn sort_keyed_uses_given_keys() {
    let items = vec![(vec![2u8], "two"), (vec![1u8, 9], "one-nine"), (vec![1u8], "one"), (vec![2u8], "two-again")];
    assert_eq!(sort_keyed(items), vec!["one", "one-nine", "two", "two-again"]);
    let empty: Vec<(Vec<u8>, u8)> = Vec::new();
    assert!(sort_keyed(empty).is_empty());
}

#[test]
fn credentials() {
    assert!(credentials_match("admin", "1234"));
    assert!(!credentials_match("admin", "admin"));
    assert!(!credentials_match("root", "1234"));
}

#[test]
fn third_failure_locks_for_thirty_minutes() {
    let now = 1_700_000_000u64;
    let (s1, o1) = login(fresh(), "admin", "wrong", now);
    assert_eq!(o1, LoginOutcome::Rejected { attempts_left: 2 });
    assert_eq!(login_status(o1), 401);
    assert_eq!(login_body(o1), "Invalid credentials. 2 attempts remaining.");
    let (s2, o2) = login(s1, "x", "y", now + 5);
    assert_eq!(o2, LoginOutcome::Rejected { attempts_left: 1 });
    assert_eq!(login_body(o2), "Invalid credentials. 1 attempts remaining.");
    let (s3, o3) = login(s2, "admin", "nope", now + 10);
    assert_eq!(o3, LoginOutcome::LockedNow);
    assert_eq!(login_status(o3), 200);
    assert_eq!(login_body(o3), "Too many attempts. Account locked for 30 minutes.");
    assert_eq!(s3.failed_attempts, Some(3));
    assert_eq!(s3.lock_until, Some(now + 10 + 1800));
    assert!(!s3.logged_in);
}

#[test]
fn lock_refuses_even_right_credentials() {
    let state = SessionState { logged_in: false, failed_attempts: Some(3), lock_until: Some(10_000) };
    let (after, outcome) = login(state, "admin", "1234", 10_000 - 1799);
    assert_eq!(after, state);
    assert_eq!(outcome, LoginOutcome::StillLocked { minutes_left: 29 });
    assert_eq!(login_status(outcome), 200);
    assert_eq!(login_body(outcome), "Too many attempts. Try again in 29 minutes");
    let (_, outcome) = login(state, "admin", "1234", 9_990);
    assert_eq!(outcome, LoginOutcome::StillLocked { minutes_left: 0 });
}

#[test]
fn login_succeeds_after_lock_ends() {
    let state = SessionState { logged_in: false, failed_attempts: Some(3), lock_until: Some(10_000) };
    let (after, outcome) = login(state, "admin", "1234", 10_000);
    assert_eq!(outcome, LoginOutcome::Accepted);
    assert_eq!(after, SessionState { logged_in: true, failed_attempts: None, lock_until: None });
    assert_eq!(login_status(outcome), 303);
    assert_eq!(login_location(outcome), Some("/"));
    assert_eq!(login_body(outcome), "");
}

#[test]
fn admin_logs_in_on_a_new_session() {
    let (after, outcome) = login(fresh(), "admin", "1234", 1_700_000_000);
    assert_eq!(outcome, LoginOutcome::Accepted);
    assert_eq!(login_status(outcome), 303);
    assert_eq!(login_location(outcome), Some("/"));
    assert!(after.logged_in);
}

#[test]
fn failure_after_expired_lock_locks_again() {
    let state = SessionState { logged_in: false, failed_attempts: Some(3), lock_until: Some(10_000) };
    let (after, outcome) = login(state, "admin", "bad", 20_000);
    assert_eq!(outcome, LoginOutcome::LockedNow);
    assert_eq!(after.failed_attempts, Some(4));
    assert_eq!(after.lock_until, Some(21_800));
    assert_eq!(login_location(outcome), None);
}

#[test]
fn failure_keeps_logged_in_flag() {
    let state = SessionState { logged_in: true, failed_attempts: None, lock_until: None };
    let (after, outcome) = login(state, "admin", "bad", 5);
    assert_eq!(outcome, LoginOutcome::Rejected { attempts_left: 2 });
    assert!(after.logged_in);
    assert_eq!(after.failed_attempts, Some(1));
}

#[test]
fn logout_purges_session() {
    let state = SessionState { logged_in: true, failed_attempts: Some(2), lock_until: Some(99) };
    let (after, location) = logout(state);
    assert_eq!(after, SessionState { logged_in: false, failed_attempts: None, lock_until: None });
    assert_eq!(location, "/login");
}

#[test]
fn logged_in_flag() {
    assert!(is_logged_in(Ok(Some(true))));
    assert!(!is_logged_in(Ok(Some(false))));
    assert!(!is_logged_in(Ok(None)));
    assert!(!is_logged_in(Err(())));
}

#[test]
fn routes_refuse_visitors() {
    assert_eq!(index(false, Some("docs")), None);
    assert_eq!(upload(false, Some("docs")), None);
    assert!(file_target(false, "a.txt", Some("docs")).is_none());
}

#[test]
fn index_strips_leading_separators() {
    assert_eq!(index(true, Some("//docs/2024")), Some("docs/2024"));
    assert_eq!(index(true, Some("\\docs")), Some("docs"));
    assert_eq!(index(true, None), Some(""));
}

#[test]
fn upload_plan() {
    assert_eq!(upload(true, Some("/docs")), Some("/docs"));
    assert_eq!(upload(true, None), Some(""));
    assert_eq!(upload_file_name(Some("cv.pdf")), "cv.pdf");
    assert_eq!(upload_file_name(None), "upload.tmp");
    assert_eq!(listing_location("docs/2024"), "/?path=docs/2024");
    assert_eq!(listing_location(""), "/?path=");
}

#[test]
fn file_target_decodes_name() {
    let t = file_target(true, "my%20file%2Etxt", Some("docs")).unwrap();
    assert_eq!(t.dir, "docs");
    assert_eq!(t.name, "my file.txt");
    let t = file_target(true, "x", None).unwrap();
    assert_eq!(t.dir, "");
    assert_eq!(t.name, "x");
}

#[test]
fn links_lead_back_to_their_entry() {
    for name in ["report 2024.pdf", "é.txt", "50%.png"] {
        let t = file_target(true, &encode_file_name(name), Some("a/b")).unwrap();
        assert_eq!(t.name, name);
        assert_eq!(t.dir, "a/b");
    }
}

fn expected_row(f: &FileEntry, rel_path: &str) -> String {
    let encoded = encode_file_name(&f.name);
    let preview_link = if is_previewable(&f.name) {
        format!(
            "<a href=\"/preview/{encoded}?path={rel_path}\" target=\"_blank\" class=\"text-green-600 hover:underline\"><i class=\"fas fa-eye\"></i> Preview</a>",
            encoded = encoded,
            rel_path = rel_path
        )
    } else {
        String::new()
    };
    let size_text = if f.is_dir { "—".to_string() } else { format!("{} B", f.size) };
    let actions = if f.is_dir {
        format!(
            "<a href=\"/?path={rel_path}/{encoded}\" class=\"text-blue-600 hover:underline\">📂 Open</a> | \
             <a href=\"/delete/{encoded}?path={rel_path}\" class=\"text-red-600 hover:underline\"><i class=\"fas fa-trash\"></i> Delete</a>",
            rel_path = rel_path,
            encoded = encoded
        )
    } else {
        format!(
            "<a href=\"/download/{encoded}?path={rel_path}\" class=\"text-blue-600 hover:underline\"><i class=\"fas fa-download\"></i> Download</a> | \
             {preview} | \
             <a href=\"/delete/{encoded}?path={rel_path}\" class=\"text-red-600 hover:underline\"><i class=\"fas fa-trash\"></i> Delete</a>",
            rel_path = rel_path,
            encoded = encoded,
            preview = preview_link
        )
    };
    format!(
        r#"<div class="border rounded-lg p-4 bg-white shadow">
                <div class="flex justify-between items-center">
                    <span class="font-semibold">{}</span>
                    <span class="text-gray-500 text-sm">{}</span>
                </div>
                <div class="text-sm text-gray-600">{}</div>
                <div class="mt-2 space-x-2">{}</div>
            </div>"#,
        escape_html(&f.name),
        size_text,
        if f.is_dir { "Dir" } else { "File" },
        actions
    )
}

#[test]
fn render_row_for_a_file() {
    let f = entry("My <Photo>.PNG", false, 2048);
    let row = render_row(&f, "pics", true);
    assert_eq!(row, expected_row(&f, "pics"));
    assert!(row.contains("My &lt;Photo&gt;.PNG"));
    assert!(row.contains("2048 B"));
    assert!(row.contains("/download/My%20%3CPhoto%3E%2EPNG?path=pics"));
    assert!(row.contains("/preview/My%20%3CPhoto%3E%2EPNG?path=pics"));
}

#[test]
fn render_row_without_preview() {
    let f = entry("data.bin", false, 0);
    let row = render_row(&f, "", false);
    assert_eq!(row, expected_row(&f, ""));
    assert!(!row.contains("Preview"));
    assert!(row.contains("0 B"));
}

#[test]
fn render_row_for_a_directory() {
    let f = entry("docs 1", true, 4096);
    let row = render_row(&f, "a", false);
    assert_eq!(row, expected_row(&f, "a"));
    assert!(row.contains("/?path=a/docs%201"));
    assert!(row.contains(">—<"));
    assert!(row.contains(">Dir<"));
}

fn expected_page(rows: &str, rel_path: &str, parent: &str) -> String {
    let back_button = if rel_path.is_empty() {
        "".to_string()
    } else {
        format!(
            "<a href=\"/?path={}\" class=\"bg-gray-200 px-3 py-1 rounded hover:bg-gray-300\"><i class=\"fas fa-arrow-left\"></i> Back</a>",
            parent
        )
    };
    format!(
        r#"<!DOCTYPE html>
<html lang="en">
<head>
    <meta charset="UTF-8">
    <meta name="viewport" content="width=device-width, initial-scale=1.0">
    <title>Ankit Server File Manager</title>
    <link rel="icon" type="image/png" href="https://www.pngplay.com/wp-content/uploads/7/Cloud-Server-Icon-Transparent-Images.png">
    <script src="https://cdn.tailwindcss.com"></script>
    <link rel="stylesheet" href="https://cdnjs.cloudflare.com/ajax/libs/font-awesome/6.4.0/css/all.min.css">
</head>
<body class="bg-gray-100 min-h-screen">
    <div class="container mx-auto p-6">
        <header class="flex justify-between items-center mb-6">
            <h3 class="text-xl font-bold"><i class="fas fa-folder"></i>~$ {path}</h3><br/>
            <div class="space-x-2">
                {back_button}
                <a href="/logout" class="bg-red-500 text-white px-3 py-1 rounded hover:bg-red-600"><i class="fas fa-sign-out-alt"></i> Logout</a>
            </div>
        </header>

        <section class="mb-6">
            <form class="flex space-x-2" action="/upload?path={rel_path}" method="post" enctype="multipart/form-data">
                <input type="file" name="file" class="flex-1 border rounded px-3 py-2" required>
                <button type="submit" class="bg-blue-600 text-white px-4 py-2 rounded hover:bg-blue-700"><i class="fas fa-cloud-upload-alt"></i> Upload</button>
            </form>
        </section>

        <div class="grid grid-cols-1 md:grid-cols-2 lg:grid-cols-3 gap-4">
            {rows}
        </div>

        <footer class="mt-10 text-center text-gray-500 text-sm">
            © 2025-30 File Manager | Built with <i class="fas fa-heart text-red-500"></i>
        </footer>
    </div>
</body>
</html>"#,
        path = escape_html(if rel_path.is_empty() { UPLOAD_DIR } else { rel_path }),
        rows = rows,
        back_button = back_button,
        rel_path = rel_path
    )
}

#[test]
fn render_page_at_top() {
    let page = render_page("<div>rows</div>", "", "ignored");
    assert_eq!(page, expected_page("<div>rows</div>", "", "ignored"));
    assert!(!page.contains("Back</a>"));
}

#[test]
fn render_page_in_subdirectory() {
    let page = render_page("", "a/<b>", "a");
    assert_eq!(page, expected_page("", "a/<b>", "a"));
    assert!(page.contains("~$ a/&lt;b&gt;</h3>"));
    assert!(page.contains("<a href=\"/?path=a\" class=\"bg-gray-200"));
}

#[test]
fn render_index_lists_entries_in_order() {
    let entries = vec![entry("sub", true, 0), entry("notes.TXT", false, 12)];
    let page = render_index(&entries, "docs/2024");
    let rows = expected_row(&entries[0], "docs/2024") + &expected_row(&entries[1], "docs/2024");
    assert_eq!(page, expected_page(&rows, "docs/2024", "docs"));
    let top = render_index(&Vec::new(), "");
    assert_eq!(top, expected_page("", "", ""));
}

#[test]
fn login_page() {
    let page = login_form();
    assert!(page.contains("Ankit Server Login"));
    assert!(page.contains("action=\"/login\""));
    assert!(page.contains("name=\"username\""));
}

#[test]
fn preview_ignores_ascii_case() {
    for name in ["Photo.Jpeg", "notes.TXT", "a.rs", "INDEX.html", "Movie.mP4"] {
        let upper = name.to_ascii_uppercase();
        let lower = name.to_ascii_lowercase();
        assert_eq!(is_previewable(&upper), is_previewable(name));
        assert_eq!(is_previewable(&lower), is_previewable(name));
    }
}

#[test]
fn preview_depends_on_last_five_characters() {
    for b in ["x.png", ".jpeg", "a.zip", ".html", "b.GIF"] {
        for a in ["", "long name ", "A.PNG"] {
            assert_eq!(is_previewable(&(a.to_string() + b)), is_previewable(b));
        }
    }
}

#[test]
fn encoded_names_hold_only_escapes() {
    for name in ["report 2024.pdf", "é ü ß.txt", "50%.png", "<x>&y", "📂"] {
        let enc = encode_file_name(name);
        let bytes = enc.as_bytes();
        let mut i = 0;
        while i < bytes.len() {
            if bytes[i].is_ascii_alphanumeric() {
                i += 1;
            } else {
                assert_eq!(bytes[i], b'%');
                assert!(matches!(bytes[i + 1], b'0'..=b'9' | b'A'..=b'F'));
                assert!(matches!(bytes[i + 2], b'0'..=b'9' | b'A'..=b'F'));
                i += 3;
            }
        }
        let strict = percent_encoding::percent_decode_str(&enc).decode_utf8().unwrap();
        assert_eq!(strict, name);
    }
}

#[test]
fn run_counts_unblocked_failures_since_success() {
    let mut s = fresh();
    let mut t = 1_000u64;
    for (user, pw) in [("admin", "x"), ("admin", "y"), ("admin", "1234"), ("a", "b"), ("c", "d")] {
        s = login(s, user, pw, t).0;
        t += 10;
    }
    assert_eq!(s.failed_attempts, Some(2));
    assert_eq!(s.lock_until, None);
    let (s2, o) = login(s, "e", "f", t);
    assert_eq!(o, LoginOutcome::LockedNow);
    assert_eq!(s2.failed_attempts, Some(3));
    assert!(s2.lock_until.is_some());
    let (s3, o) = login(s2, "g", "h", t + 100);
    assert!(matches!(o, LoginOutcome::StillLocked { .. }));
    assert_eq!(s3.failed_attempts, Some(3));
}

#[test]
fn back_link_goes_up_one_directory() {
    let page = render_index(&Vec::new(), "a/b/c");
    assert_eq!(page, expected_page("", "a/b/c", "a/b"));
    let page = render_index(&Vec::new(), "single");
    assert_eq!(page, expected_page("", "single", ""));
}

fn unescape(s: &str) -> String {
    let mut out = String::new();
    let mut rest = s;
    while !rest.is_empty() {
        if let Some(r) = rest.strip_prefix("&lt;") {
            out.push('<');
            rest = r;
        } else if let Some(r) = rest.strip_prefix("&gt;") {
            out.push('>');
            rest = r;
        } else if let Some(r) = rest.strip_prefix("&amp;") {
            out.push('&');
            rest = r;
        } else {
            let c = rest.chars().next().unwrap();
            out.push(c);
            rest = &rest[c.len_utf8()..];
        }
    }
    out
}

#[test]
fn unescape_inverts_escape_html() {
    for s in ["&lt;", "a<b>&c", "&amp;amp;", "<<>>&&", "é&gt;", ""] {
        assert_eq!(unescape(&escape_html(s)), s);
    }
    assert_ne!(escape_html("&lt;"), escape_html("<"));
}
