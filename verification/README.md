# proguard

A verified library for ProGuard and R8 mapping files: it parses mapping
files record by record, re-maps obfuscated class names, methods, frames and
whole Java stack traces, parses and prints stack traces, and writes and reads
a binary cache of a mapping.

## Layout

- `src/mapping.rs`: the records of a mapping file, their grammar, a summary,
  validity and the mapping's UUID.
- `src/builder.rs`: the classes and members that the records of a mapping
  declare, with what their R8 headers say.
- `src/mapper.rs`: re-mapping of classes, methods, frames and stack traces.
- `src/stacktrace.rs`: parsing and printing of stack traces.
- `src/java.rs`: Java types and bytecode signatures.
- `src/utils.rs`: source file names and class descriptors.
- `src/cache/`: the binary cache: its records, which members it keeps
  (`keep.rs`), writing, reading, the integrity test and re-mapping from a
  cache.
- `src/properties.rs`, `src/param_mapping.rs`, `src/remap_laws.rs`,
  `src/cache/laws.rs`, `src/cache/agree.rs`: properties
  that hold over every input, stated and proved as proof functions.
- `src/text.rs`, `src/json.rs`: byte-level text helpers and the JSON of R8
  headers.
- `app/`: standard traits (`Display`, `Error`, `Iterator`) and an
  `io::Write` form of writing a cache, around the library.
