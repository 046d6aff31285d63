# bond

A parser and writer for the Microsoft Bond serialization format, verified with
Verus: Compact Binary (v1, v2), Fast Binary (v1), Simple Binary (v1, v2), the
Simple JSON mapping, and the 4-byte marshaling header.

Every reader and writer states its result exactly, over a mathematical model of
the wire format (`Seq<u8>`) and of the value tree (`ValueV`), and the library
proves what the formats promise of each other: what a writer writes, the
matching reader reads back.

## Layout

* `src/` — the verified library.
  * `varint`, `reader`, `writer`, `text` — LEB128 and zig-zag, the bounds-checked
    cursor and output buffer, UTF-8/UTF-16 text; `mirror` — what each writer
    primitive writes, the matching reader primitive reads back.
  * `value`, `schema`, `constants`, `error` — the value tree, schemas, type
    codes and protocol magics, errors and their messages (`message`).
  * `protocol` — the tagged protocols (`compact`, `fast`, with the shared reader,
    skipper and validator in `protocol`), `simple`, and `simple_json`; the laws
    live beside them in `roundtrip`, `validate_law`, `simple_roundtrip` and
    `json_roundtrip`, with `prefix` (a read only looks at the bytes it consumes,
    so a payload cut short is refused).
  * `marshal` — header detection, marshaling, unmarshaling and transcoding.
* `app/` — ordinary Rust around the library: JSON text through `serde_json`,
  the seeded data generator, and the entry points that reach Simple JSON.
* `tests/` — test vectors, error cases, round trips over seeded data.
