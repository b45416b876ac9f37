# test_generator

Generates adder test vectors for VHDL testbenches, as a library whose
behaviour is specified and proved with Verus.

- `src/logic_val.rs`, `src/logic_vec.rs`: `std_logic`-style values and
  vectors of them, their character and hexadecimal forms.
- `src/word.rs`, `src/bit_vec.rs`: fixed-width bit vectors packed in `u64`
  words, with shifts, OR and a ripple-carry adder whose results are stated
  over the numbers the bits stand for.
- `src/order.rs`, `src/rng.rs`: sorting with duplicates removed, and the
  deterministic xorshift generator with its Fisher-Yates shuffle.
- `src/adder128.rs`, `src/adder_wide.rs`: the test inputs for a 128-bit adder
  and for an adder of any width, the outputs expected for them, and their
  text as VHDL record aggregates.
- `src/vhdl.rs`: the text of the VHDL package that holds the cases.
- `app/`: the command-line program (`lab1` writes all 128-bit cases, `lab2` a
  sample of the 1024-bit cases) that writes the package file.
