# mp4_json

Two parsers whose behaviour is specified and proved with Verus:

- **MP4 boxes** (`src/mp4.rs`): the frame of a box (big-endian size, type),
  the `ftyp`, `moov` (with its `mvhd` movie header and the other children it
  recognises), `mdat`, `free`, `skip` and `wide` boxes, and a reader that takes
  top-level boxes one after the other. Results follow a three-way shape
  (`Done`, `Error`, `Incomplete`, in `src/iresult.rs`); an input on which the
  reader would stop the program (a box declaring fewer than 4 bytes) is
  excluded by a precondition, and the `try_*` forms report it as `None`.
- **JSON** (`src/json_*.rs`): values, objects, arrays, strings with escapes,
  numbers kept as their digits, and `true`/`false`/`null`, over a slice of
  characters with positions. A failure gives its position and, where the
  rule that failed has a name (`number`, `integer`, `string`, `object`,
  `value`) and failed where it began, that name.

A JSON object is a vector of members, each key once, in the order in
which it first appeared, with the value of its last occurrence
(`json_laws::object_member_is_last_field`, `json_laws::well_formed`). A
hash map keyed by strings would give the same lookups, but Verus could
prove nothing about one here: the `fnv` map's hasher type
(`BuildHasherDefault<FnvHasher>`) is refused as unsupported, and with std's
own hasher and character-string keys not even the length after one insert
is provable, since vstd models hash-map contents only for keys it knows to
hash consistently (integers and the like).

`*_spec.rs` and the `spec_*` functions say what each parser returns;
`mp4_laws.rs` and `json_laws.rs` prove properties that hold for every input.
`app/` is a command-line driver (file reading, printing, floating-point
numbers, benchmarks).
