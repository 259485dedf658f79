# madore

A local Markdown viewer: the command serves a directory on `127.0.0.1` and
shows its Markdown files in the browser, with a file tree and live reload.

- `src/` is the library, verified with Verus: which names and paths are shown
  and watched (`fsutil`, `paths`), the sidebar tree (`tree`), the title of a
  document (`render`), what the handlers answer (`routes`, `server`), which
  file-system events call for a reload (`watcher`), how the background server
  is found again (`daemon`, `numtext`) and the launcher's steps (`launcher`).
- `app/` is the program around it: the command line, the HTTP server, the
  file watcher, the embedded page, Markdown rendering with comrak, and all
  file, network and process work.
- `tests/` exercises the library.

## Platforms

The library models Unix paths only: `/` is the one separator and there are
no drive or UNC prefixes (`src/paths.rs`). The checks that rest on paths — a
document must lie under the root, a reload names the file relative to the
root — are proved for that model. On Windows, where `std::path` also splits
at `\` and knows prefixes such as `C:` and `\\?\`, those checks would not
match what the operating system reports, so this crate targets Unix systems
(Linux, macOS, WSL).
