# compact_space

A codec for columns of `u128` numbers, some of which may be missing. It finds the stretches of the
number space that hold no value, leaves them out, and packs what is left into few bits. A
compressed column is read row by row, or searched for the rows whose value lies in a range, without
unpacking it. It was made for IP addresses.

What the codec does is stated in contracts and proved with Verus.

- `src/space.rs`: the compact space, its ranges, and how it is written down
- `src/builder.rs`, `src/order.rs`: which blanks are cut out, and the space that is left
- `src/params.rs`: the parameters in the footer
- `src/compressor.rs`, `src/decompressor.rs`: columns, written and read
- `src/laws.rs`: what holds from training to reading, above all that a column reads back as it was
  written, and that a search finds the rows that it should
- `src/bits.rs`, `src/wire.rs`, `src/ip.rs`: bits, numbers on the wire, IP addresses
- `src/bitpack.rs`, and the start of `src/wire.rs` and `src/decompressor.rs`: what is relied on,
  without proof, of `tantivy_bitpacker`, `tantivy_common`, `ownedbytes` and `std`
- `app/`: the codec behind readers, writers, columns of other kinds and `std`'s IP addresses
