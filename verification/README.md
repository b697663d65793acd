# converter

Converts LiveSplit split files (`.lss`, XML) into LibreSplit split files (JSON).

- `src/` is the library, verified with Verus:
  - `time.rs` reads LiveSplit durations and writes LibreSplit durations;
  - `xml.rs` is the element tree the reader works on;
  - `livesplit.rs` reads a LiveSplit document: header, attempt counts, segments, and each
    segment's best time, following every attempt through the segments;
  - `icon.rs` turns LiveSplit icons (paths, URIs, embedded .NET bitmaps) into URIs;
  - `libresplit.rs` builds the LibreSplit file; `lib.rs` converts a text end to end;
  - `external.rs` holds the calls into `spex`, `typed-path`, `base64`, `infer` and `xml`.
- `app/` is the shell around it: JSON output with serde, the `convert` entry point and the
  C entry points `converter_convert` / `converter_free_string`.
- `tests/` runs the library on concrete files, durations and icons.
