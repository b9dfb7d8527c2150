# serde-tristate

Three-state field values for HTTP PATCH request bodies.

| State | JSON | Meaning |
|---|---|---|
| `Value(T)` | `"name": "Alice"` | set the field to this value |
| `Null` | `"name": null` | clear the field |
| `Undefined` | *(absent)* | leave the field unchanged |

Layout:

- `src/tristate.rs`: the `Tristate<T>` type, its conversions to and from
  `Option<T>` and `Option<Option<T>>`, its combinators and the helpers that
  apply a patch value to a field, each with its contract, and the laws that
  tie them together (the conversions to and from `Option<Option<T>>` are
  inverse to each other, so nothing is lost between the wire and the type).
- `src/token.rs`: token trees as plain values, with their mathematical model.
- `src/attribute.rs`: the `#[serde_tristate]` rewrite on token trees: split a
  body at its top-level commas, recognise `Tristate<..>` fields, put
  `#[serde(default, skip_serializing_if = "Tristate::is_undefined")]` in front
  of them, recurse into enum variants with named fields.
- `app/lib.rs`: serde's `Serialize` and `Deserialize` on a wrapper of
  `Tristate`, and the conversion between `proc_macro` token streams and the
  library's token trees.
