# damf2joc

A verified library, in Verus, for E-AC-3 (Dolby Digital Plus) streams that carry Joint Object Coding:
reading syncframes, building the metadata of each frame, carrying it in the frame without touching the
audio, and reading it back. A command line program around it turns a Dolby Atmos Master (DAMF) and a 5.1
E-AC-3 core into "DD+ Atmos".

For personal and interoperability research only.

## Layout

| Module | What it holds |
|---|---|
| `bits`, `crc` | Bit strings, MSB-first readers and writers, variable-length numbers, CRC-16/32/8 |
| `eac3`, `bsi` | Syncframes and their headers, bit stream information |
| `alloc_tables`, `eac3_audblk` | The walk over the audio blocks that locates each block's skip field |
| `inject` | Auxiliary data, additional information, EMDF in a skip field, splicing |
| `stream` | Streams of frames: transforming them in memory and piece by piece |
| `protect`, `oamd`, `emdf`, `joc` | EMDF containers, their protection, and the OAMD and JOC payloads |
| `damf`, `render` | Manifest, metadata events, CAF essence; samples, WAV header, timelines |
| `atmos`, `passes` | The metadata of a frame, and passes over whole streams |
| `hex`, `tally` | Hexadecimal text, counting |

`app/` is the program: arguments, files, YAML, printing, and everything that is floating point (panning,
downmix, JOC analysis, quantization). `extras/model.py` is a small model of the formats in another
language; it prints the digests that `tests/digests.rs` compares with.

## What is proved

Every function states what it returns as a function of the bits or bytes that it reads. On top of that
the library proves laws, named `law_...`: what is written reads back (variable-length numbers, OAMD, JOC,
EMDF containers, auxiliary data, skip fields), frames that are rebuilt prove clean under their check word,
audio bits are kept, streaming gives what the whole buffer gives while less than one piece and one frame
are held, and a stream whose frames were given metadata has as many frames as before, each of them
carrying its own.

## JOC tables

The band counts and Huffman decode trees of JOC are data, not code: a `JocTables` value. The program reads
them from a YAML file (`--joc-tables`) with the fields `num_bands` (eight counts) and `fine_generic`,
`coarse_generic`, `fine_coeff_sparse`, `coarse_coeff_sparse`, `pos_index_5ch`, `pos_index_7ch` (trees: lists
of `[zero, one]` pairs, where a number `n >= 0` is the next node and `n < 0` the symbol `-n - 1`).

## Protection

`protect::EmdfProtector` is the one seam where a container is signed. `PublicCrcProtector` writes public
CRCs, well-formed but unsigned; `KeyedProtector` (`--emdf-key`) writes truncated HMAC-SHA256 codes. The
construction that certified hardware validates is not public, and neither of the two is it.
