# ucfg

Layered configuration for applications. A `Builder` hands a list of
`Source`s, in the order they were added, to a type that implements `Config`;
the type reads its fields with `get_field_value` and decides how later
sources override earlier ones.

Layout:

- `src/` is the library, verified with Verus:
  - `source.rs`: the `Source` trait; `EnvSource`, which turns nested keys
    (`database.host`) into environment variable names (`APP_database__host`)
    and back; `DeserializerSource`, which serves a JSON document.
  - `json.rs`: the JSON value model, lookup by dotted keys, the text a value
    is reported as, and the listing of keys.
  - `config.rs`: the `Config` trait and the parsing of field values
    (strings, truth values, integers).
  - `builder.rs`: the `Builder`.
  - `text.rs`: splitting and replacing on character sequences.
  - `laws.rs`: properties that relate several operations (key round trips,
    listed keys being found).
- `app/` holds what reaches outside the process or into serde: the
  environment-variable source, the conversion of serde_json values, and a
  `Display` for errors.
- `tests/` runs the library on concrete values.
