# ferrix_core

The storage engine of a spreadsheet for very large sheets, written in Verus: every
function of the library is verified against its contract, and the promises that
span functions are public proof functions beside them.

## What is in it

- Cells: `value`, `arena` (interned strings), `bitmap`, `column` (typed columns),
  `cellmap`, `keyed`, `overlay` (edits over a read-only base).
- Order and shape: `order` (row and column permutations as runs), `filter`,
  `merge`, `regions`, `rectangles`, `sizing`, `page` (pagination).
- Looks: `format`, `rules` (conditional formatting), `numfmt` (number format
  codes), `comment`, `protect`.
- Analysis: `pivot`, `consolidate`, `dedupe`, `chart`, `scene`, `annotation`,
  `autocomplete`.
- Interchange: `clipboard` (a block, and Paste Special), `spelled` (a block as HTML
  spells it), `paste` (HTML as a block), `markup`, and `interchange`, which proves that
  a copied block comes back: every text, number format and style, every formula that
  begins with `=` with where it was copied from, and every font size and width whose
  two written places read as the same number. The general number format comes back
  unsaid, and so does where a cell without a formula was copied from.
- Machine: `budget`, `capacity`, `cancel`, `bench`.

## Floating point

The library holds numbers as bit patterns (`F64`, `F32`). Comparing them is
verified; rounding arithmetic is not. A function that has to add or divide takes
the operations as closures, and its contract says which operation is applied to
which numbers in which order. `app/floats.rs` holds the operations themselves.

## Layout

- `src/`: the verified library.
- `tests/`: its tests.
- `app/`: programs around it: argument handling, files, the clock, threads and
  floating-point arithmetic.
