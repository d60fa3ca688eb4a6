# contextpilot

Answers, for a range of lines of a file in a git workspace: which commits
touched these lines, which other files those commits changed, and who wrote
them. It indexes the workspace's history into sharded JSON files under the
home directory and queries them.

## Layout

- `src/` — the library, verified with Verus: each public function states
  what it returns or changes in its `requires`/`ensures`.
  - `diff_v2.rs`, `hunk.rs`, `hunk_fit.rs`, `line_map.rs`: reading hunk
    headers of `git show --unified=0`, and moving, dropping and recording
    tracked lines as each hunk says (`reorder_map`, `parse_diff`).
  - `diff.rs`: per-line commit history built from diff lines
    (`extract_details_with_tracking`).
  - `db.rs`, `string_map.rs`: the database's in-memory state — line data,
    the mapping of files to shards, indexing metadata, and the queries.
  - `git_command_algo.rs`: reading what git prints (renames, logs,
    commit descriptions).
  - `server.rs`, `algo_loc.rs`, `file_utils.rs`, `config*.rs`,
    `contextgpt_structs.rs`, `authordetails_impl.rs`, `utils.rs`, `text.rs`.
  - `laws.rs`: properties that relate the operations to one another.
- `tests/` — tests of the library.
- `app/` — the `contextpilot` command: argument handling, running git,
  files and JSON, and the indexing loop.
