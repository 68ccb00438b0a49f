# extension_fixer

Finds media files whose extension does not match their content (a photo
saved as `.mp4`, a video saved as `.jpg`) and plans the renames that fix
them. Detection goes by magic bytes, not by name.

`src/` is the library, verified with Verus:

- `detect` — the table of supported formats and the magic-byte detection;
- `paths` — file names, stems, extensions, parents, joins and relative
  paths, read off the components of a path as text, by Unix rules (`/`
  separates components) or Windows rules (`\` and `/` separate, `\`
  joins, a leading drive such as `C:` is a prefix); `PathStyle::native()`
  picks the rules of the platform at hand. UNC, verbatim and device
  prefixes (`\\server\share`, `\\?\`, `\\.\`) are not modelled;
- `naming` — the suggested name for a mismatched file, and the numbering
  (` (1)`, ` (2)`, …) that keeps renames from colliding with files on disk
  and with targets claimed earlier in the batch (compared by their
  components, through `paths::path_key`);
- `events` — the batcher that groups scan results into larger events;
- `apply` — carrying out a rename request (to the suggested name, numbered
  when taken, never overwriting) and tallying a batch;
- `scan` — what a scan reports for one file.

Disk access reaches the library as plain values (the leading bytes of a
file) or as the functions `on_disk` and `rename` that callers pass in.

`app/` is the desktop shell: the Tauri commands, walking folders, reading
headers, renaming on disk and emitting events.
