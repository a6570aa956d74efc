# Log viewer

A viewer for the `.log` and `.out` files of a server: directories are browsed, files
are searched page by page, followed while they grow and downloaded in chunks.

`src/` is the library, written in Verus. It holds what the viewer decides:

- `text`, `calendar`, `time`: strings as sequences of characters, dates, and the first
  timestamp of a line, read as local time (+08:00);
- `regex`, `regex_parser`, `regex_laws`: a subset of regular expressions, a matcher for
  it, and what patterns find;
- `filter`: which lines are shown;
- `search`, `download`, `tail`: the lines of a file, handed over one by one or as bytes;
- `roots`, `paths`, `listing`: the root directories, paths that stay within them, and
  what a directory shows;
- `store`, `session`: the open connections and the streams that are followed;
- `json`, `request`, `plans`, `fault`, `clock`: requests, the order in which they are
  checked, and how they are refused.

Contracts state what a function returns, or, of what rests on the clock, what holds of
every outcome. The public proof functions named `law_..` state what holds between them.
`app/` reads files and runs the plugin, and `tests/` runs the library.
