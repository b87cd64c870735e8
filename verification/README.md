# fff — binary finite fields, verified

Field arithmetic for GF(2^8) and GF(2^16) and the packed-buffer kernels built
on it, with every kernel's result stated as a contract and proved.

## Layout

- `src/field/` — the fields. GF(2^8) is the AES field (`0x11B`); GF(2^16) is
  the quadratic tower `u² + u + δ` over it. Element products are spec
  functions, and the field laws (commutativity, associativity,
  distributivity, identities, irreducibility of the tower polynomial) are
  proof functions.
- `src/kernel/backend.rs` — the backend enum and how one is chosen from what
  the host reports, including the downgrade-only override.
- `src/kernel/lanes.rs` — one 128-bit register as sixteen bytes, and the
  shuffle, lookup and lane-multiply operations the kernels use.
- `src/kernel/tables.rs` — the prepared forms of a coefficient: nibble
  tables and broadcast words.
- `src/kernel/gf8.rs`, `src/kernel/gf16.rs` — the single-coefficient
  kernels, and which kernel each backend runs.
- `src/kernel/blocked.rs` — the register-blocked scatter, gather and matrix
  kernels shared by both fields.
- `src/kernel/mod.rs` — the kernel traits, the specification of every shape
  (`span_mul_add`, `scatter_seq`, `gather_seq`, `matrix_seq`), the row-by-row
  forms and the laws relating the shapes.
- `app/` — the process around the library: CPU probing, the `FFF_BACKEND`
  environment variable, caching the choice, and the text forms of the
  backend types.
- `tests/` — scenarios and differential checks of every backend against
  bytewise products.
