# okf_core

Which files of a bundle the ignore rules leave, and which they leave out,
verified with Verus.

A bundle is a directory of markdown files that often lives inside a larger
repository. Ignore files (`.okfignore`, and on request `.gitignore`,
`.dockerignore` and others) say what does not belong to it. This library reads
them, decides about paths, walks a bundle, and tells when a bundle has changed.

## Layout

| Module           | What it holds                                                        |
| ---------------- | -------------------------------------------------------------------- |
| `src/text.rs`    | Text as characters: pieces and lines                                 |
| `src/glob.rs`    | `*`, `?` and `[...]` within one path component                       |
| `src/pattern.rs` | One line of an ignore file: its grammar and what it matches          |
| `src/path.rs`    | Paths as components, names as bytes                                  |
| `src/ignore.rs`  | Rule sets, stacks of rule sets, and the sources a caller configures  |
| `src/layers.rs`  | Which ignore files govern a directory, and in what order             |
| `src/order.rs`   | The order of names and paths, and a stable sort                      |
| `src/walk.rs`    | The walk of a bundle as a chain of steps                             |
| `src/disk.rs`    | What a walk of a whole disk reports, and that the steps report it    |
| `src/survey.rs`  | What holds of all that such a walk reports                           |
| `src/watch.rs`   | Sweeps of the watched files, and when a watcher speaks up            |

The library touches no disk. A step of a walk says what it needs to know, and
takes the answer; `app/` asks the disk and runs the steps, and polls for the
watcher.

Functions named `law_...` are theorems about the library as a whole. What
Verus takes on trust is two calls into the standard library:
`std::str::from_utf8` and `std::path::MAIN_SEPARATOR`.
