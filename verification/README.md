# qfixed

Bit-accurate fixed-point arithmetic in Texas Instruments style Q notation,
for modelling RTL datapaths, with every operation proved against its
contract.

- `Q<I, F>`: signed, `I` integer bits (sign included) and `F` fractional bits.
- `UQ<I, F>`: unsigned.
- `CQ<I, F>`: signed complex, a real and an imaginary `Q<I, F>`.

`I` and `F` are const parameters; a format is usable when `1 <= I + F <= 64`.
A value is modelled by its *count*, the integer number of `2^-F` units it
holds. Widening operations (`add`, `sub`, `neg`, `mul`, `widen`, `sum` into a
wide enough accumulator) are exact; `wrapping_*` operations reduce the exact
result to `I + F` bits like a register, `saturating_*` ones clamp it to
`[MIN, MAX]`, and the `try_*` operations report what does not fit.

The packed containers store bulk data compactly: `PackedArray` and
`PackedVec` keep each element in a caller-chosen backing primitive, while
`PackedBits` and `PackedBitsVec` pack elements at exactly `I + F` bits
(`2 * (I + F)` for `CQ`) across byte boundaries.

## Layout

- `src/`: the verified library. `spec` and `bits` hold the arithmetic model
  and the word-level facts; `q`, `uq`, `cq` the types; `ops`, `cq_ops` and
  `convert` the operators, reductions and format conversions; `bitstream`
  the bit-exact read and write; `packed` the containers; `laws` the
  properties that relate several operations.
- `app/`: conversions through `f64`, text formatting and serde support,
  which stay outside the verified library.
- `tests/`: tests on concrete values.
