# moo_rust

Support code for a MOO server: case-insensitive comparison and search of
strings, splitting of command lines into words, MD5 hashing of byte strings
into hexadecimal C strings, and the sizes of reference-counted allocations.

- `src/` is the library, verified with Verus: `ascii_string`, `parse_cmd`,
  `crypto` and `memory`, each with its specification and the laws proved of it.
- `app/` is the C interface around it (raw pointers, `libc` allocation,
  C strings).
- `tests/` runs the library on concrete inputs.
