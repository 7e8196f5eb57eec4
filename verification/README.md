# patscan

Finds substrings that look like personal access tokens (PATs): 52 characters
from `[0-9a-z]` whose character frequencies are flat enough to look random.

* `src/wide.rs` scans UTF-16 lines (`&[u16]`) and returns the first match,
  either character by character (`sisd`) or with a block prefilter (`simd`).
* `src/text.rs` scans UTF-8 lines (`&str`) and returns every match, with the
  same two strategies.
* `src/blocks.rs` and `src/histogram.rs` hold what the two scanners share: how
  runs of blocks are grouped and counted, and sums over bucket histograms.
* `app/` is the command line tool (standard input to standard output; UTF-8
  by default, UTF-16 with `--utf16`) and the C entry point `simd_c`.

Every function in `src/` is verified with Verus against a specification of what
it returns; `tests/` exercises the library on random and hand-made lines.
