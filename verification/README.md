# podcasts_remove_ads

Finds intro music, outro announcements and sponsor reads that recur across
the episodes of a podcast, and cuts them out with FFmpeg.

The crate is in two parts.

* `src/` is a library verified with Verus: landmark fingerprints of a peak
  track (`fingerprint`), the radix-sorted matching engine with its
  sliding-window warm filter (`radix`, built on the multiset facts of `bag`
  and `merge_join`), cluster extraction (`clusters`), boundary snapping and
  spectral verification of a candidate segment (`segment`), the `.fp`
  raw-peak file format (`fp`), episode dates and sort keys (`tags`), the
  planning of work on a directory (`dir`), runtime bookkeeping
  (`runtimes`), the configuration (`config`) and the file column of the
  result table (`cut`).
* `app/` is the command-line program around it: argument parsing, FFmpeg
  decoding and splicing, the FFT peak analysis, the floating-point handling
  of times in seconds, file and directory I/O, ID3 tag access, JSON files,
  the HTML report and the directory watcher.

The tests under `tests/` exercise the library.
