# oxideav_ogg

The Ogg container in Rust, proved with Verus: pages and their checksums, the
packet layer, the Skeleton metadata stream, a muxer, a demuxer and a validator.

- `src/` is the library, all of it verified. What holds of several functions
  together stands in public proof functions whose names begin with `law_`.
- `app/` is the code around it: files, the container registry of `oxideav-core`,
  and times as floating-point seconds.
- `tests/` runs the library on concrete values.

## Where to find what

| Module | Subject |
| --- | --- |
| `page`, `crc` | one page and its checksum |
| `framing`, `framing_laws` | packets put on the pages of one bitstream and read back |
| `codec_id`, `theora`, `header_packets` | what header packets tell of a codec |
| `single` | decimal notation rounded to single-precision numbers |
| `skeleton` | the Skeleton stream: head, bones, indexes, message headers |
| `mux` | several bitstreams, links of a chain, indexes that are filled in at the end |
| `demux` | pages taken apart, seeking, durations |
| `validate` | which rules of the format a physical stream breaks |

The laws that tie the parts together:

- a page, a packet layer, a Skeleton packet is read back as it was written
  (`page::law_parse_encoded`, `framing_laws::law_round_trip`,
  `skeleton::*::law_*_round_trip`);
- a demuxer gives back what a muxer was given, over all links of a chain
  (`demux::round_trip::law_read_back`);
- what a muxer writes in time is clean
  (`mux::clean_laws::law_muxer_clean`, `law_chain_clean`), also behind the
  patches at its end (`mux::patch_laws::law_patched_clean`);
- clean physical streams without a common serial make a clean chain, and a
  serial that is used twice is told (`validate_chain::law_chain`,
  `law_serial_reuse`);
- reading that goes on behind a seek meets no hole and delivers whole packets
  only (`demux::flush_laws::law_seek_without_holes`, `law_seek_reads`);
- behind a walk over a whole file, a seek finds the best page for every target
  (`demux::walk_laws::law_seek_indexed`);
- every keypoint of an index that a muxer builds is where a page of its stream
  begins (`mux::index_laws::law_keypoints_at_pages`).

## What is believed without proof

That `String::push` appends one character; and that what
`String::from_utf8_lossy` gives depends on the bytes alone, is their decoding
where they are UTF-8, and takes every ASCII character from among them.
