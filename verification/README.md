# jerky

The decisions a JavaScript package manager makes, with proofs.

jerky reads `package.json`, resolves every project of a workspace against a
registry in one walk, resolves peer dependencies, writes a lockfile, and lays
out `node_modules` as links into a virtual store. This crate holds what it
decides, written in Rust and verified with Verus. Each function states what it
returns in `ensures`, over a mathematical model of the types it works on.

## Layout

`src/` is the verified library.

- Text and collections: `text`, `path`, `order`, `sorted`, `json`.
- What a package is: `package_id`, `importer`, `range`, `specifier`,
  `integrity`, `platform`, `binaries`, `registry`, `graph`.
- Resolution: `walk` for dependencies; `peers`, `instance`, `copies`,
  `complaints`, `naming` and `peer_pass` for peers. `resolver` gathers them.
- What is kept: `manifest`, `lockfile`, `store`, `metadata_cache`.
- The workspace: `globs`, `workspace`.
- An install: `cli`, `install`, `planning`, `plan`, `sync`, `init`, `report`,
  `error`.
- The tree on disk, as lists of steps: `linker`, `directory`, `archive`.
- The edge of the world: `http` and `pool` decide what to do next; the program
  does it.
- For tests: `testing`, `tarball`, `gates`.

The modules whose names end in `_laws` hold what is true of several functions
together: that a lockfile reads back as the graph it was written from, that a
second install changes nothing, that no link leads out of the workspace.

`app/` is the program: arguments, files, threads and the network. It performs
what the library decided and hands back what came of it.

`tests/` runs the library on concrete values.

## What is trusted

Calls into other crates stand in small functions marked `external_body`, whose
contracts say what those crates document: semantic versions (`range`), hashes
and base64 (`integrity`), globs (`globs`), reading and writing tarballs
(`archive`, `tarball`). Where a result would take pages to describe it has a
name instead, and nothing more is said of it than that the same values give the
same result.
