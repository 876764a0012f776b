# msca

Columnar storage for n-dimensional analytical data: reading columns from the bytes of a file, narrowing
them by filters before and after the bytes are decoded, and generating the code that rebuilds composite
items from several columns.

## Layout

- `src/` is the library. Verus proves the contract of every function in it but for the few calls into
  `std` and other crates that are named under "What is taken on trust".
  - `io/`, `num`, `float`, `nonzero`: decoding values from bytes.
  - `read/`: the sources that items of a column are decoded from, and what becomes of each item.
  - `manifest/`, `entries`: where columns and their buffers are located, and how segments are framed.
  - `query/`: filters, windows, joins and combinations over columns, and what holds of them.
  - `derive/`: the expansion of a composite type into its reader.
- `tests/` runs the library on concrete values.
- `app/` holds what surrounds the library: files, memory maps, CBOR and the derive entry point.

## How a query reads

A chain of adapters narrows a mask of buffers first. Compact buffers are decided by their one item and
detailed buffers by their statistics; what the mask excludes is never decoded. The chain then decodes
and filters the items of the buffers that are left. `query::sieve` proves that a chain of filters keeps
exactly the items of the whole column that pass every filter, presence among them, and `query::laws`
that windows select the items that they name. `derive::lockstep` proves that a generated reader advances
the streams of its fields together, and `query::written` that reading a buffer gives back the items that
it was written with, whatever their kind.

## What is taken on trust

Each function that makes such a call states its assumption above itself: the bits of a mask
(`query::mask`), hash collections (`hashed`), the checksum of a segment (`manifest::segment`), text and
characters (`io::deserialize`) and the identity of two schemas (`query::combine`).
