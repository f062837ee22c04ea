# file_manager

A small web file manager (admin login with lockout, directory listing,
upload, download, preview and delete), split in two:

- `src/` — the verified library: the login state machine and its lockout
  rules (`login`), the ordering of a listing (`listing`), the HTML of the
  pages (`page`, `templates`), the decisions of each route (`routes`),
  percent-encoding of file names in links (`url`) and text helpers (`text`).
- `app/` — the actix-web server around it: sessions, the clock, the file
  system and HTTP.
- `tests/` — tests of the library on concrete values.
