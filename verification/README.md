# serde_greppable

gron is a line-per-value form of JSON that `grep` can search: every value of a JSON
document is written as one assignment, `json.path.to.it = value;`, on a line of its own.
This crate writes JSON values as gron and reads gron back into JSON values, with the
logic verified by Verus.

Layout:

- `src/` — the verified library.
  - `gron.rs` writes a value as gron (`json_to_gron`).
  - `ungron.rs` reads gron text line by line (`gron_to_json`); `scan.rs` splits a line
    at its `=` and finds the `;` that ends its value, both outside quotes; `path.rs`
    reads paths (`PathParser`); `json.rs` holds the value type and assignment at a path.
  - `assign.rs`, `lookup.rs` and `roundtrip.rs` hold the laws: what assignments do to a
    value, what a read at a path gives after a write, and that the gron text of a
    well-formed value reads back as that value.
  - `chars.rs`, `text.rs` and `error.rs` hold characters, strings and errors.
- `app/` — the serde side: `to_string`, `to_writer`, `from_str`, `from_slice` and
  `from_reader` for any serializable type, through `serde_json::Value`.
- `tests/` — tests of the library.
