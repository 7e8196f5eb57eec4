//! Fast detection of personal-access-token-like substrings (PATs).
//!
//! A PAT is a run of 52 characters drawn from `[0-9a-z]` whose character
//! frequency distribution is flat enough to look random.  Two scanners are
//! offered for each text representation: `sisd`, which inspects one character
//! at a time, and `simd`, which first looks at aligned blocks of eight
//! characters and only hands promising regions to `sisd`.
//!
//! * [`wide`] scans UTF-16 code units (`&[u16]`) and reports the first match.
//! * [`text`] scans UTF-8 strings (`&str`) and reports every match.
//! * [`blocks`] describes how the block prefilters walk runs of blocks.
//! * [`histogram`] holds the sums over bucket histograms.

pub mod blocks;
pub mod histogram;
pub mod text;
pub mod wide;
