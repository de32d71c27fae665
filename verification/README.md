# mygit

A small Git implementation whose core is verified with Verus.

- `src/` is the verified library: loose objects and their framing, the
  index file format, tree objects (parsing, writing nested trees from the
  index), commits and history walking, refs and reflogs, the config file,
  pack index search and delta application, ignore rules, status and diff
  decisions, and the text each command prints. Calls into `sha1`, `hex`,
  `flate2`, `glob` and `similar` go through small trusted wrappers whose
  contracts name what those crates compute.
- `app/` is the command-line program: argument parsing, file system access,
  locking, and the loops that read objects and refs from disk and hand
  their bytes to the library.
- `tests/` exercises the library on concrete values.

The public proof functions state the library's laws, among them: a loose
object reads back as written, the index file reads back as written, a tree
reads back as its items, the trees written for the index read back as the
staged files (so `status` right after a commit reports nothing staged),
`status` reports a clean tree exactly when nothing changed, a config value
reads back after it is set (a `remote.<name>.url` also through the
`[remote "<name>"]` section), a commit's fields read back, and an updated
ref is found and read back by the ref lookup.
