# amiga_rom

A verified library for Amiga Kickstart ROM images: it normalizes raw dumps
(byte-swapped, Cloanto/Amiga Forever containers, hi/lo EPROM pairs) into a
canonical big-endian image, and inspects and validates that image. It does
no I/O; everything works on byte slices.

Layout:

- `src/bytes.rs`: big-endian reads and writes and their byte-level meaning.
- `src/checksum.rs`: the ones'-complement longword sum and its arithmetic
  facts.
- `src/loader.rs`: byte orders, format detection, normalization, Cloanto
  decoding, hi/lo merge and split, and their round-trip laws.
- `src/kickrom.rs`: header/footer/size/checksum checks, value reads, the
  `RomInfo` aggregate, and the checksum sealer with its laws.
- `src/scan.rs`: the `Resident` (RomTag) scanner.
- `src/split.rs`: extracting caller-supplied module ranges.
- `app/lib.rs`: copies of the error types carrying `Display` and
  `std::error::Error`.
