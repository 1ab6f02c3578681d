# rfindfiles

Finds files under a set of folders, filtered by extension and by the date of
last modification, from a command line (`rfindfiles-cli`) or a GTK window.

The library in `src/` is written in Verus: every function there carries a
contract that the verifier proves, except two small trusted wrappers around
std calls (`search::path_is_dir`, which asks `Path::is_dir`, and
`text::push_char`, which calls `String::push`), whose contracts are taken
as std documents them.

- `text`: characters, whitespace trimming, splitting at a separator.
- `date`: `YYYY-MM-DD` parsing and the civil calendar (day numbers, leap years).
- `paths`: `~` expansion, path components, the order in which paths sort,
  file extensions.
- `search`: extension and folder lists, and which found files are reported,
  in which order.
- `cli`: the command line, as a function from arguments to a search or an error.
- `ui`: the decisions of the window (paging, languages, themes, the form).
- `error`: the error type.

`app/` holds the program around the library: walking folders, reading the
environment and the settings files, printing, and the GTK widgets.
