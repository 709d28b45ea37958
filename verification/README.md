# uu_lsns

`lsns` lists Linux namespaces. This crate holds its logic as a verified
library; `app/main.rs` is the program around it, which reads `/proc`,
`/proc/self/mountinfo` and `/etc/passwd` and prints what the library returns.

Library modules (`src/`):

- `text`: whitespace, searching, trimming, tokenizing and decimal parsing and
  printing, each specified over `Seq<char>`.
- `stat`: reading PID, state and PPID from `/proc/[pid]/stat` text.
- `process`: PIDs from `/proc` entry names, the command of a process, and the
  process record built from what was read.
- `model`: processes, namespace kinds, namespaces.
- `assign`: grouping processes by namespace (counts, lowest PID).
- `mount`: lines of text, and the bind-mounted namespaces of a mount table.
- `order`: stable ordering of namespaces by ID.
- `gather`: the three steps together.
- `display`: user names from passwd text, and the rows of the listing.
