# slopcount

Counts lines of code, broken down into implementation, documentation and test
lines.

`src/` is the library. Its functions are verified with Verus: their `requires`
and `ensures` say what they take and what they give back, over the spec
functions that stand beside them. The exceptions are the small wrappers marked
`external_body`, in `text`, `json`, `globs`, `gitignore` and `lang`: they call the
standard library or an outside crate, and what they claim of it is trusted.

Properties that span several functions are public proof functions whose names
start with `law_`.

| Module | What it holds |
| --- | --- |
| `text`, `order`, `numbers`, `path`, `ordmap` | strings, orders and sorting, numerals, paths, ordered maps |
| `json` | JSON values, merging them, reading and writing them through `serde_json` |
| `globs`, `gitignore` | sets of globs through `globset`, ignore files through `ignore` |
| `lang`, `data` | language definitions and families, and those that come with the library |
| `count` | the line classifier: strings, comments, test regions |
| `report` | counts, reports, grouping, net change |
| `walk`, `vfs` | which files are counted, what differs between two listings, what is hidden |
| `render`, `output`, `listing` | rows, tables, CSV, JSON, and the listings of languages and families |
| `cli`, `path_ref`, `source` | what the command line asks for, and which sources that means |

`app/` is the program around the library: argument parsing, the file system,
git and the asynchronous walk. `tests/` runs the library.
