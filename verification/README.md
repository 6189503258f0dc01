# thanatos

A declarative system configuration manager: a configuration crate prints
the packages, users, groups and hostname a machine should have, and
`thanatos switch` brings the machine to that state.

## Layout

- `src/` — the verified library (Verus).
  - `lib.rs`: the declared `System` and the ordered steps that build it.
  - `access_control/`: users, groups, id allocation, id resolution, and the
    text of `/etc/passwd`, `/etc/shadow` and `/etc/group` (reading ids,
    writing, replacing, appending and removing entries).
  - `networking/hostname.rs`: hostname validation.
  - `package/`: PKGBUILD parsing, the package database, the steps of an
    installation, how sources are fetched, and SHA-256 checksums. The
    database is a vector kept sorted by package name, with that order (and
    so the uniqueness of names) as its type invariant, rather than a
    `BTreeMap<String, Package>`: Verus specifies `BTreeMap` in a way that
    lets little be proved about `String` keys, while the sorted vector lets
    every query be stated and proved over a map from names to packages.
  - `config.rs`: the binary name of a configuration crate's manifest.
  - `text.rs`: character-sequence operations with `str`-like specifications.
- `app/` — the command-line program: file, network and process I/O around
  the library, and serde copies of the library's types.
- `tests/` — tests of the library on concrete values.
