# gifnoc

Layered project configuration: a configuration is a (nested) struct with
defaults, and every option can be overridden from command-line flags,
environment variables or configuration files, in an order of precedence the
application chooses.

## Layout

- `src/` is the library, verified with Verus:
  - `value.rs`: JSON values (`Value`) and their model (`Json`).
  - `nesting.rs`: `flatten` (nested object to dotted paths) and `nest`
    (dotted paths back to nested objects), with `FlatMap`.
  - `json.rs`: reading a setting as JSON where possible, else as a string.
  - `args.rs`: `parse_from`, splitting a command line into positional actions
    and `--key value` / `--key=value` flags.
  - `env.rs`: `from_vars`, reading `{PREFIX}_SECTION__KEY` variables.
  - `config.rs`: `merge`, the flatten / override / nest step, and the
    `Configurable` trait.
  - `formats.rs`: configuration documents as values: `parse_toml`,
    `parse_yaml` (through the `toml` and `serde_yml` crates) and
    `nested_json_of_text` for JSON files with dotted keys.
  - `text.rs`: character-level helpers on strings.
  - `laws.rs`: what holds of these operations together (the round trip of
    flatten and nest both ways, overriding and layering of updates, keys
    that never occur twice in an object).
- `app/` holds what touches the process and serde: `args::parse`,
  `env::with_prefix`, reading the `json`/`toml`/`yaml` files, the conversion
  to and from `serde_json::Value`, and the `config!` macro.
- `tests/` exercises the library.
