# antc

Verified core of the Ant compiler's Cranelift back end, written in Verus.

- `src/table.rs`: the scoped symbol table. Its view is the chain of scopes,
  innermost first; the contracts say what a definition records, which symbol a
  lookup finds, and how a lookup through a function boundary captures a free
  variable in every scope in between. Laws about these operations are proved
  as public proof functions in the same file.
- `src/name_map.rs`: the name-keyed maps that the scopes use.
- `src/value.rs`: compile-time constants and their in-memory byte images.
- `src/generic.rs`: instance names of generics, substitutions and the fields
  of struct instances (using `indexmap`).
- `src/build_struct.rs`: struct layout lookup and where each field of a new
  struct is stored.
- `app/`: the command-line driver and the code that emits Cranelift
  instructions from the library's decisions.
