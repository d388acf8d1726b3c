# CPGC

CPGC is an experimental, lossless compressor whose core is verified with Verus. It
predicts every bit of its input from 30 context models and a long-match model, mixes the
predictions with a two-layer logistic mixer, sharpens the result, and codes the bit with
a binary arithmetic coder. The decoder runs the same model in step, so no model is
stored in the archive.

What is proved, among other things:

- whatever is compressed is decompressed to the same bytes, or refused: an archive is
  only ever decoded to bytes whose CRC-32 it records;
- no function of the library panics, overflows or reads out of bounds, on any input that
  its contract admits; what reads an archive admits any bytes;
- the size of the machine changes the schedule, never the bytes produced;
- members of an archive are extracted below the directory they are extracted to.

## Layout

- `src/codec.rs`: archives of one file: classification of blocks, transforms, checksum.
- `src/cm/`: the context-mixing engine: models, mixer, coder, segments, levels.
- `src/transform/`: the word dictionary and the byte transforms.
- `src/analyzer/`: entropy and classification of blocks.
- `src/archive/`: solid archives, record formats, creating and extracting.
- `src/ans/`, `src/bitstream.rs`, `src/predictor/`: a table-driven entropy coder, bit
  packing, and byte-oriented models.
- `src/names.rs`, `src/calendar.rs`, `src/browse.rs`, `src/selection.rs`,
  `src/shell.rs`: what the programs around the library decide.
- `app/`: the command-line program, the desktop browser, and the floating-point models.

## Levels

| Level | Segment size | Model | Memory profile | Block transforms |
|---:|---:|---|---|---|
| 1 | 1 MiB | Turbo + text dictionary | Standard | No |
| 2 | 2 MiB | Turbo + text dictionary | Standard | No |
| 3 | 4 MiB | Turbo + text dictionary | Standard | No |
| 4 | 8 MiB | Full | Standard | No |
| 5 | 16 MiB | Full | Standard | Yes |
| 6 | 32 MiB | Full | Standard | Yes |
| 7 | 64 MiB | Full | Big | Yes |
| 8 | 64 MiB | Full | Extra large | Yes |
| 9 | 256 MiB | Full | Maximum | Yes |

Blocks that look incompressible are stored raw at every level.

## Trusted code

Verus takes these calls at their word; each states what it claims in its doc comment:

- `crc32fast::hash` and `xxhash_rust::xxh3::xxh3_64` in `src/checksum.rs`;
- `String::from_utf8` in `src/archive/solid.rs`;
- rayon's parallel map in `src/cm/parallel.rs`.
