# obsidian_mirror

The verified core of a web mirror for an Obsidian vault: the notes of a git
repository are rendered to HTML, linked, indexed and served with search, a link
graph, insights, share links and reading history.

- `src/` is the library, written in Verus. Every function there carries a
  `requires`/`ensures` contract that Verus proves: Markdown rewriting and
  rendering, the sidebar, the link graph, backlinks and tags, insights, sync
  planning, search filters and order, share links, authentication decisions,
  the offline index of the browser and its live preview. Calls into outside
  crates (pulldown-cmark, bcrypt, jsonwebtoken, chrono, percent-encoding, hmac,
  uuid, regex-syntax) stand behind small trusted wrappers whose contracts say
  what those crates' sources show.
- `app/` is the server around it: HTTP handlers, git, the disk, the search index
  and the stores. It reads requests, calls the library and writes the answers;
  the browser computations in floating point stay there too.
- `tests/` runs the library on concrete values.
