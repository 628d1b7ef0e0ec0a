# version_control

A small version control system ("mini-git"): a repository keeps the content
of staged files as objects addressed by their SHA-256 hash, a staging area
that maps relative paths to hashes, and a list of commits, each a snapshot
of the staging area with an identifier, a message and a time.

- `src/` is the library, verified with Verus: the string map that holds the
  staging area and the objects (`str_map`), text comparisons (`text`),
  hashing and identifiers (`utils`), path rules (`paths`), the repository
  and its operations (`repository`), the decisions of the commands such as
  what a diff compares and reports (`commands`), and properties that span
  operations (`laws`).
- `app/` is the command line tool: argument parsing, the file system, JSON
  storage of the repository, and printing.
- `tests/` runs the library on concrete values.
