# vrc_get

An open source client of the VRChat Package Manager, with its rules written in Verus: the
library states in `requires`/`ensures` what each function does, and Verus proves that the
code does it.

## Layout

- `src/version/`: versions, version ranges and Unity editor versions: parsing, writing,
  ordering and matching. `round_trip.rs` proves that what is written reads back.
- `src/vpm/`: the package manager: choosing package versions, resolving what a project needs,
  the project manifest, cached downloads, repository files.
- `src/cli/`: the options of the command-line tool and the decisions behind its output.
- `src/gui/`: the rules of the desktop application: settings, logs, project folders,
  templates, backups, links that open the application, when to reload the environment.
- `src/installer.rs`, `src/release.rs`, `src/linkage.rs`: the installer's platform choices and
  command line, release metadata, and whether built binaries (read with `object`) link only
  to system libraries.
- `src/address.rs`, `src/text.rs`: addresses as the `url` crate reads them, and plain text.
- `app/`: the command-line program around the library: argument parsing, files, network.
- `tests/`: tests of the library on concrete values.

Calls into outside crates (`semver`, `sha2`, `indexmap`, `url`, `sys-locale`, `zip`, `object`) and into parts of
`std` that Verus does not specify stand behind small trusted functions, each with a doc comment
that says what its contract claims.
