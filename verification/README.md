# git_starter_rust

A small git: `init`, `cat-file -p`, `hash-object -w`, `ls-tree --name-only`,
`write-tree`, `commit-tree` and `clone` over the smart HTTP protocol.

- `src/` is the library, verified with Verus: object encoding and naming
  (`object`), trees (`tree`), commits (`commit`), pack decoding and delta
  resolution (`clone`, `delta`), the option types of the command line
  (`cli`), a model of a work tree stored and checked out again (`worktree`),
  and the contracts of the codecs it calls (`codec`: flate2, sha1,
  hex).
- `app/main.rs` is the command-line program: argument parsing (clap), the
  file system and HTTP (reqwest).
- `tests/` runs the library on concrete inputs.
