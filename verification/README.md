# shard

Shard generates Prism Launcher instances from a declarative YAML file: templates
describe an instance, and matrixes expand each template over every combination
of their inputs.

## Layout

- `src/` is the library, verified with Verus:
  - `text.rs`: character-level string helpers (ordering, searching, joining,
    UTF-8 widths).
  - `sorted_map.rs`: a map from strings to values kept in key order, the
    library's stand-in for `BTreeMap<String, V>`.
  - `config/`: the configuration types, the `kind@version` loader syntax, and
    the version check.
  - `instance/`: expansion of a matrix into combinations, placeholder
    interpolation, and resolution of a configuration into instances.
  - `prism/`: the `instance.cfg` document (through rust-ini) and the location
    of Prism Launcher's data directory.
  - `error/`: parse errors located within their input (through miette).
  - `manifest/`: the list of instances that shard manages.
- `tests/`: tests of the library.
- `app/`: the command-line program, YAML and JSON (de)serialisation, file
  access, and the miette diagnostics for the library's errors.
