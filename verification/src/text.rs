//! Scanning of UTF-8 lines (`&str`) for every PAT-like window.
//!
//! Positions are byte offsets into the line.  PAT characters are ASCII, so
//! the character scan walks the bytes of the line: any other byte, including
//! each byte of a multi-byte character, resets the scan, and the next possible
//! start is the byte after it.  After a multi-byte character that is the next
//! character boundary.

use vstd::prelude::*;
use vstd::utf8::*;
use vstd::string::*;
use crate::histogram::{
    counts_view, lemma_range_sum_shift, lemma_range_sum_split, lemma_range_sum_zero,
    lemma_squares_le_square_of_sum, lemma_sum_add_one, lemma_sum_squares_range, lemma_zero_sum,
    range_sum, sum_counts, sum_of_squares, sum_squares,
};
use crate::blocks::{self, BLOCKS_TO_MATCH};
use vstd::std_specs::iter::IteratorSpec;

verus! {

broadcast use vstd::utf8::encode_utf8_valid_utf8;

/// Number of characters in a PAT.
pub const PAT_LEN: u8 = 52;
/// Number of histogram buckets used by the character scan.
pub const PAT_CHARS: usize = 36;
/// The largest sum of squared bucket counts of a 52-character window.
pub const MAX_ESTIMATE: usize = 2704;
/// A window is PAT-like when its entropy estimate exceeds this bound, the
/// largest estimate that a window of lowercase hexadecimal digits can reach.
pub const SISD_ENTROPY_BOUND: usize = 2532;

// ---------------------------------------------------------------------------
// Bytes and histograms
// ---------------------------------------------------------------------------

/// A byte that is a whole PAT character: `'0'..='9'` or `'a'..='z'`.
pub open spec fn is_pat_byte(c: u8) -> bool {
    (48 <= c <= 57) || (97 <= c <= 122)
}

/// Bucket of a PAT byte in the character scan: letters map to 0..=25, digits to 26..=35.
pub open spec fn text_bucket(c: u8) -> int {
    if 97 <= c <= 122 {
        c - 97
    } else {
        c - 48 + 26
    }
}

/// Number of bytes in `bs[s..e]` that fall into character-scan bucket `b`.
pub open spec fn count_text(bs: Seq<u8>, s: int, e: int, b: int) -> nat
    decreases e - s,
{
    if e <= s {
        0
    } else {
        count_text(bs, s, e - 1, b) + if text_bucket(bs[e - 1]) == b {
            1nat
        } else {
            0nat
        }
    }
}

/// The character-scan histogram of `bs[s..e]`.
pub open spec fn text_histogram(bs: Seq<u8>, s: int, e: int) -> Seq<int> {
    Seq::new(PAT_CHARS as nat, |b: int| count_text(bs, s, e, b) as int)
}

/// Every byte of `bs[s..e]` is a PAT byte.
pub open spec fn all_pat(bs: Seq<u8>, s: int, e: int) -> bool {
    forall|k: int| s <= k < e ==> is_pat_byte(#[trigger] bs[k])
}

/// The 52 bytes starting at `s` lie within `bs` and are all PAT bytes.
pub open spec fn pat_span(bs: Seq<u8>, s: int) -> bool {
    0 <= s && s + PAT_LEN <= bs.len() && all_pat(bs, s, s + PAT_LEN)
}

/// Start of the maximal run of PAT bytes that ends just before byte `p`.
pub open spec fn run_start(bs: Seq<u8>, p: int) -> int
    decreases p,
{
    if p <= 0 || !is_pat_byte(bs[p - 1]) {
        p
    } else {
        run_start(bs, p - 1)
    }
}

/// `bs[s..s + 52]` is a window that the character scan inspects: 52 PAT bytes
/// that start a multiple of 52 bytes after the start of their run.
pub open spec fn is_window(bs: Seq<u8>, s: int) -> bool {
    &&& pat_span(bs, s)
    &&& (s - run_start(bs, s)) % (PAT_LEN as int) == 0
}

/// Entropy estimate of the window at `s`: 2704 minus the sum of squared bucket counts.
pub open spec fn window_entropy(bs: Seq<u8>, s: int) -> int {
    MAX_ESTIMATE - sum_squares(text_histogram(bs, s, s + PAT_LEN), PAT_CHARS as int)
}

/// The window at `s` is inspected and PAT-like.
pub open spec fn is_hit(bs: Seq<u8>, s: int) -> bool {
    is_window(bs, s) && window_entropy(bs, s) > SISD_ENTROPY_BOUND
}

/// Positions of the hits whose windows end at or before byte `n`, in increasing order.
pub open spec fn hits_upto(bs: Seq<u8>, n: int) -> Seq<int>
    decreases n,
{
    if n < PAT_LEN {
        Seq::empty()
    } else if is_hit(bs, n - PAT_LEN) {
        hits_upto(bs, n - 1).push(n - PAT_LEN)
    } else {
        hits_upto(bs, n - 1)
    }
}

/// A match as the scans report it: `(start, entropy estimate)`; its text is
/// the 52 bytes of the line at its start.
pub type Found = (int, int);

/// The `Found` entry of the hit at `s`.
pub open spec fn hit_found(bs: Seq<u8>, s: int) -> Found {
    (s, window_entropy(bs, s))
}

/// The `Found` entries of the hits whose windows end at or before byte `n`.
pub open spec fn found_upto(bs: Seq<u8>, n: int) -> Seq<Found> {
    hits_upto(bs, n).map_values(|s: int| hit_found(bs, s))
}

/// Everything the character scan reports for `bs`, in order.
pub open spec fn sisd_found(bs: Seq<u8>) -> Seq<Found> {
    found_upto(bs, bs.len() as int)
}

/// The matches in `v` are the entries of `f` for the line with bytes `bs`:
/// the same starts and entropy estimates, and each text is the 52 bytes of
/// the line at its start.
pub open spec fn reports(bs: Seq<u8>, v: Seq<(usize, &str, usize)>, f: Seq<Found>) -> bool {
    &&& v.len() == f.len()
    &&& forall|k: int|
        0 <= k < v.len() ==> {
            &&& (#[trigger] v[k]).0 == f[k].0
            &&& v[k].2 == f[k].1
            &&& 0 <= f[k].0
            &&& f[k].0 + PAT_LEN <= bs.len()
            &&& v[k].1.spec_bytes() == bs.subrange(f[k].0, f[k].0 + PAT_LEN)
        }
}

// ---------------------------------------------------------------------------
// Lemmas
// ---------------------------------------------------------------------------

/// In valid UTF-8, a continuation byte follows another byte of the same character.
proof fn lemma_continuation_follows_high(bs: Seq<u8>, i: int)
    requires
        valid_utf8(bs),
        0 <= i < bs.len(),
        is_continuation_byte(bs[i]),
    ensures
        i > 0,
        bs[i - 1] >= 0x80,
    decreases bs.len(),
{
    let n = length_of_first_scalar(bs);
    if i >= n {
        let rest = pop_first_scalar(bs);
        assert(rest[i - n] == bs[i]);
        lemma_continuation_follows_high(rest, i - n);
        assert(rest[i - n - 1] == bs[i - 1]);
    }
}

proof fn lemma_run_start(bs: Seq<u8>, p: int)
    requires
        0 <= p <= bs.len(),
    ensures
        0 <= run_start(bs, p) <= p,
        all_pat(bs, run_start(bs, p), p),
        run_start(bs, p) == 0 || !is_pat_byte(bs[run_start(bs, p) - 1]),
    decreases p,
{
    if p > 0 && is_pat_byte(bs[p - 1]) {
        lemma_run_start(bs, p - 1);
    }
}

proof fn lemma_run_start_same(bs: Seq<u8>, s: int, p: int)
    requires
        0 <= s <= p <= bs.len(),
        run_start(bs, p) <= s,
    ensures
        run_start(bs, s) == run_start(bs, p),
    decreases p - s,
{
    if s < p {
        lemma_run_start(bs, p);
        assert(is_pat_byte(bs[p - 1]));
        lemma_run_start_same(bs, s, p - 1);
    }
}

proof fn lemma_no_window_between(bs: Seq<u8>, s: int, ps: int, p: int)
    requires
        0 <= s,
        s + PAT_LEN <= p <= bs.len(),
        run_start(bs, p) <= ps,
        (ps - run_start(bs, p)) % (PAT_LEN as int) == 0,
        s < ps < s + PAT_LEN,
    ensures
        !is_window(bs, s),
{
    lemma_run_start(bs, p);
    let r = run_start(bs, p);
    if s < r {
        assert(!is_pat_byte(bs[r - 1]));
    } else {
        lemma_run_start_same(bs, s, p);
    }
}

proof fn lemma_count_bound(bs: Seq<u8>, s: int, e: int, b: int)
    ensures
        count_text(bs, s, e, b) <= if e >= s { e - s } else { 0 },
    decreases e - s,
{
    if e > s {
        lemma_count_bound(bs, s, e - 1, b);
    }
}

proof fn lemma_hits_upto(bs: Seq<u8>, n: int)
    ensures
        forall|k: int|
            0 <= k < hits_upto(bs, n).len() ==> is_hit(bs, #[trigger] hits_upto(bs, n)[k]),
    decreases n,
{
    if n >= PAT_LEN {
        lemma_hits_upto(bs, n - 1);
        let prev = hits_upto(bs, n - 1);
        assert forall|k: int| 0 <= k < hits_upto(bs, n).len() implies is_hit(
            bs,
            #[trigger] hits_upto(bs, n)[k],
        ) by {
            if k < prev.len() {
                assert(hits_upto(bs, n)[k] == prev[k]);
            }
        }
    }
}

proof fn lemma_found_upto_step(bs: Seq<u8>, n: int)
    requires
        n >= PAT_LEN,
    ensures
        found_upto(bs, n) == if is_hit(bs, n - PAT_LEN) {
            found_upto(bs, n - 1).push(hit_found(bs, n - PAT_LEN))
        } else {
            found_upto(bs, n - 1)
        },
{
    if is_hit(bs, n - PAT_LEN) {
        assert(found_upto(bs, n) =~= found_upto(bs, n - 1).push(hit_found(bs, n - PAT_LEN)));
    } else {
        assert(found_upto(bs, n) =~= found_upto(bs, n - 1));
    }
}

proof fn lemma_reports_push(
    bs: Seq<u8>,
    v: Seq<(usize, &str, usize)>,
    f: Seq<Found>,
    x: (usize, &str, usize),
    fx: Found,
)
    requires
        reports(bs, v, f),
        x.0 == fx.0,
        x.2 == fx.1,
        0 <= fx.0,
        fx.0 + PAT_LEN <= bs.len(),
        x.1.spec_bytes() == bs.subrange(fx.0, fx.0 + PAT_LEN),
    ensures
        reports(bs, v.push(x), f.push(fx)),
{
    assert forall|k: int| 0 <= k < v.push(x).len() implies {
        let g = f.push(fx);
        &&& (#[trigger] v.push(x)[k]).0 == g[k].0
        &&& v.push(x)[k].2 == g[k].1
        &&& 0 <= g[k].0
        &&& g[k].0 + PAT_LEN <= bs.len()
        &&& v.push(x)[k].1.spec_bytes() == bs.subrange(g[k].0, g[k].0 + PAT_LEN)
    } by {
        if k < v.len() {
            assert(v.push(x)[k] == v[k]);
            assert(f.push(fx)[k] == f[k]);
        }
    }
}

proof fn lemma_text_total(bs: Seq<u8>, s: int, e: int)
    requires
        0 <= s <= e <= bs.len(),
        all_pat(bs, s, e),
    ensures
        sum_counts(text_histogram(bs, s, e), PAT_CHARS as int) == e - s,
    decreases e - s,
{
    if e == s {
        assert forall|n: int| 0 <= n <= PAT_CHARS implies sum_counts(
            #[trigger] text_histogram(bs, s, e),
            n,
        ) == 0 by {
            lemma_zero_sum(text_histogram(bs, s, e), n);
        }
    } else {
        lemma_text_total(bs, s, e - 1);
        let j = text_bucket(bs[e - 1]);
        assert(is_pat_byte(bs[e - 1]));
        lemma_sum_add_one(text_histogram(bs, s, e - 1), text_histogram(bs, s, e), PAT_CHARS as int, j);
    }
}

/// A run of 52 PAT bytes starts and ends on character boundaries: PAT bytes
/// are ASCII, and no continuation byte follows an ASCII byte.
proof fn lemma_window_boundaries(bs: Seq<u8>, s: int)
    requires
        valid_utf8(bs),
        pat_span(bs, s),
    ensures
        is_char_boundary(bs, s),
        is_char_boundary(bs, s + PAT_LEN),
{
    assert(is_pat_byte(bs[s]));
    is_char_boundary_iff_not_is_continuation_byte(bs, s);
    is_char_boundary_start_end_of_seq(bs);
    if s + PAT_LEN < bs.len() {
        is_char_boundary_iff_not_is_continuation_byte(bs, s + PAT_LEN);
        if is_continuation_byte(bs[s + PAT_LEN]) {
            lemma_continuation_follows_high(bs, s + PAT_LEN);
            assert(is_pat_byte(bs[s + PAT_LEN - 1]));
        }
    }
}

/// Maps a PAT byte to its character-scan bucket, or `None` for any other byte.
fn pat_char_index(c: u8) -> (r: Option<u8>)
    ensures
        match r {
            Some(i) => is_pat_byte(c) && i == text_bucket(c),
            None => !is_pat_byte(c),
        },
{
    if 97 <= c && c <= 122 {
        Some(c - 97)
    } else if 48 <= c && c <= 57 {
        Some(c - 48 + 26)
    } else {
        None
    }
}

/// Cuts `line[a..b]` out of a string at two character boundaries.
fn str_slice(line: &str, a: usize, b: usize) -> (r: &str)
    requires
        a <= b <= line.spec_bytes().len(),
        is_char_boundary(line.spec_bytes(), a as int),
        is_char_boundary(line.spec_bytes(), b as int),
    ensures
        r.spec_bytes() == line.spec_bytes().subrange(a as int, b as int),
{
    let ghost bs = line.spec_bytes();
    let (_, tail) = line.split_at(a);
    proof {
        let tb = tail.spec_bytes();
        assert(tb =~= bs.subrange(a as int, bs.len() as int));
        is_char_boundary_start_end_of_seq(tb);
        is_char_boundary_start_end_of_seq(bs);
        if b - a < tb.len() {
            is_char_boundary_iff_not_is_continuation_byte(bs, b as int);
            is_char_boundary_iff_not_is_continuation_byte(tb, b - a);
        }
    }
    let (piece, _) = tail.split_at(b - a);
    piece
}


// ---------------------------------------------------------------------------
// Character scan
// ---------------------------------------------------------------------------

/// Every match of the character scan, in order: each hit of `line` (see
/// [`is_hit`]) with its start, its 52 bytes of text and its entropy estimate.
pub fn sisd_inner(line: &str) -> (r: Vec<(usize, &str, usize)>)
    ensures
        reports(line.spec_bytes(), r@, sisd_found(line.spec_bytes())),
{
    let bytes = line.as_bytes();
    let ghost bs = line.spec_bytes();
    let len = bytes.len();
    let mut out: Vec<(usize, &str, usize)> = Vec::new();
    let mut possible_start_index: usize = 0;
    let mut confirmed_length: u8 = 0;
    let mut char_counts = [0u8; PAT_CHARS];
    let mut i: usize = 0;
    while i < len
        invariant
            bytes@ == bs,
            bs == line.spec_bytes(),
            valid_utf8(bs),
            len == bs.len(),
            0 <= i <= len,
            possible_start_index + confirmed_length == i,
            confirmed_length < PAT_LEN,
            run_start(bs, i as int) <= possible_start_index,
            (possible_start_index - run_start(bs, i as int)) % (PAT_LEN as int) == 0,
            forall|b: int|
                0 <= b < PAT_CHARS ==> #[trigger] char_counts[b] == count_text(
                    bs,
                    possible_start_index as int,
                    i as int,
                    b,
                ),
            reports(bs, out@, found_upto(bs, i as int)),
        decreases len - i,
    {
        let c = bytes[i];
        proof {
            lemma_run_start(bs, i as int);
        }
        if let Some(pat_char_index) = pat_char_index(c) {
            let ghost old_counts = char_counts;
            proof {
                lemma_count_bound(bs, possible_start_index as int, i as int, pat_char_index as int);
            }
            char_counts[pat_char_index as usize] += 1;
            confirmed_length += 1;
            assert forall|b: int| 0 <= b < PAT_CHARS implies #[trigger] char_counts[b] == count_text(
                bs,
                possible_start_index as int,
                i + 1,
                b,
            ) by {
                assert(old_counts[b] == count_text(bs, possible_start_index as int, i as int, b));
            }
            assert(run_start(bs, i + 1) == run_start(bs, i as int));
            if confirmed_length < PAT_LEN {
                proof {
                    if i + 1 >= PAT_LEN {
                        lemma_no_window_between(bs, i + 1 - PAT_LEN, possible_start_index as int, i + 1);
                        lemma_found_upto_step(bs, i + 1);
                    }
                }
                i += 1;
                continue;
            }
            let ghost ws = possible_start_index as int;
            proof {
                lemma_run_start(bs, i + 1);
                lemma_run_start_same(bs, ws, i + 1);
                assert(is_window(bs, ws));
                assert(counts_view(char_counts) =~= text_histogram(bs, ws, ws + PAT_LEN));
                lemma_text_total(bs, ws, ws + PAT_LEN);
                assert forall|b: int| 0 <= b < PAT_CHARS implies 0 <= #[trigger] counts_view(char_counts)[b] by {}
                lemma_squares_le_square_of_sum(counts_view(char_counts), PAT_CHARS as int);
                let t = sum_counts(counts_view(char_counts), PAT_CHARS as int);
                assert(t == 52);
                assert(t * t == 2704) by (nonlinear_arith)
                    requires
                        t == 52,
                ;
                assert(sum_squares(counts_view(char_counts), PAT_CHARS as int) <= 2704);
                assert forall|b: int| 0 <= b < PAT_CHARS implies #[trigger] char_counts[b] <= 52 by {
                    lemma_count_bound(bs, ws, ws + PAT_LEN, b);
                }
            }
            let sum = sum_of_squares(&char_counts);
            let entropy = MAX_ESTIMATE - sum;
            assert(entropy == window_entropy(bs, ws));
            if entropy > SISD_ENTROPY_BOUND {
                let start_index = possible_start_index;
                let end_index = possible_start_index + PAT_LEN as usize;
                proof {
                    lemma_window_boundaries(bs, ws);
                }
                let substr = str_slice(line, start_index, end_index);
                proof {
                    assert(is_hit(bs, ws));
                    lemma_found_upto_step(bs, i + 1);
                    lemma_reports_push(bs, out@, found_upto(bs, i as int), (start_index, substr, entropy), hit_found(bs, ws));
                }
                out.push((start_index, substr, entropy));
            } else {
                proof {
                    assert(!is_hit(bs, ws));
                    lemma_found_upto_step(bs, i + 1);
                }
            }
            possible_start_index += confirmed_length as usize;
        } else {
            proof {
                assert(run_start(bs, i + 1) == i + 1);
                if i + 1 >= PAT_LEN {
                    assert(!is_window(bs, i + 1 - PAT_LEN)) by {
                        assert(!is_pat_byte(bs[i as int]));
                    }
                    lemma_found_upto_step(bs, i + 1);
                }
            }
            possible_start_index = i + 1;
        }
        if confirmed_length > 0 {
            char_counts = [0u8; PAT_CHARS];
        }
        confirmed_length = 0;
        i += 1;
    }
    out
}

/// The matches of the character scan as an iterator.
pub fn sisd_iter(line: &str) -> (r: std::vec::IntoIter<(usize, &str, usize)>)
    ensures
        reports(line.spec_bytes(), r.remaining(), sisd_found(line.spec_bytes())),
{
    let found = sisd_inner(line);
    let ghost v = found@;
    let r = found.into_iter();
    assert(r.remaining() == v);
    r
}

/// Every match of the character scan, collected.
pub fn sisd(line: &str) -> (r: Vec<(usize, &str, usize)>)
    ensures
        reports(line.spec_bytes(), r@, sisd_found(line.spec_bytes())),
{
    sisd_inner(line)
}


// ---------------------------------------------------------------------------
// Block scan
// ---------------------------------------------------------------------------

/// Number of bytes in a block.
pub const MATCH_LANES: usize = 8;
/// Number of histogram buckets used by the block scan.
pub const FREQ_BUCKETS: usize = 64;
/// The largest sum of squared bucket counts of a 40-byte group.
pub const HIGHEST_ESTIMATE: usize = 1600;
/// A group passes the prefilter when its entropy estimate exceeds this bound.
pub const SIMD_ENTROPY_BOUND: usize = 1500;

/// Bucket of a PAT byte in the block scan: digits map to 0..=9, letters to 10..=35.
pub open spec fn block_bucket(c: u8) -> int {
    if 97 <= c <= 122 {
        c - 97 + 10
    } else {
        c - 48
    }
}

/// Number of bytes in `bs[s..e]` that fall into block-scan bucket `b`.
pub open spec fn count_block(bs: Seq<u8>, s: int, e: int, b: int) -> nat
    decreases e - s,
{
    if e <= s {
        0
    } else {
        count_block(bs, s, e - 1, b) + if block_bucket(bs[e - 1]) == b {
            1nat
        } else {
            0nat
        }
    }
}

/// The block-scan histogram of `bs[s..e]`.
pub open spec fn block_histogram(bs: Seq<u8>, s: int, e: int) -> Seq<int> {
    Seq::new(FREQ_BUCKETS as nat, |b: int| count_block(bs, s, e, b) as int)
}

/// Block `b` (bytes `8b..8b + 8`) lies within `bs` and holds only PAT bytes.
pub open spec fn block_pat(bs: Seq<u8>, b: int) -> bool {
    &&& 0 <= b
    &&& (b + 1) * MATCH_LANES <= bs.len()
    &&& all_pat(bs, b * MATCH_LANES, b * MATCH_LANES + MATCH_LANES)
}

/// Which blocks of `bs` are PAT blocks.
pub open spec fn block_marks(bs: Seq<u8>) -> spec_fn(int) -> bool {
    |b: int| block_pat(bs, b)
}

/// Entropy estimate of group `g`: 1600 minus the sum of squared bucket counts of its 40 bytes.
pub open spec fn group_entropy(bs: Seq<u8>, g: int) -> int {
    HIGHEST_ESTIMATE - sum_squares(
        block_histogram(bs, g * MATCH_LANES, (g + BLOCKS_TO_MATCH) * MATCH_LANES),
        FREQ_BUCKETS as int,
    )
}

/// Group `g` is inspected (see [`blocks::is_group`]) and passes the prefilter.
pub open spec fn group_fires(bs: Seq<u8>, g: int) -> bool {
    blocks::is_group(block_marks(bs), g) && group_entropy(bs, g) > SIMD_ENTROPY_BOUND
}

/// The first character boundary at or after byte `p`.
pub open spec fn next_boundary(bs: Seq<u8>, p: int) -> int
    decreases bs.len() - p,
{
    if p < 0 || p >= bs.len() || !is_continuation_byte(bs[p]) {
        p
    } else {
        next_boundary(bs, p + 1)
    }
}

/// The region rescanned when group `g` passes the prefilter, as `(start, end)`:
/// from one block before the group, 104 bytes or up to the end of the line,
/// each end moved forward to a character boundary.
pub open spec fn region(bs: Seq<u8>, g: int) -> (int, int) {
    let st = (if g > 1 { g } else { 1 } - 1) * MATCH_LANES;
    let en = if st + 2 * PAT_LEN < bs.len() { st + 2 * PAT_LEN } else { bs.len() as int };
    (next_boundary(bs, st), next_boundary(bs, en))
}

/// Start of the tail rescanned after the last block: the incomplete last
/// block and the 51 bytes before it, from the first character boundary on.
pub open spec fn tail_start(bs: Seq<u8>) -> int {
    let rem = (bs.len() as int) % (MATCH_LANES as int);
    next_boundary(
        bs,
        if rem + PAT_LEN - 1 < bs.len() {
            bs.len() - (rem + PAT_LEN - 1)
        } else {
            0
        },
    )
}

/// Moves every start in `f` by `d`.
pub open spec fn shift_by(f: Seq<Found>, d: int) -> Seq<Found> {
    f.map_values(|x: Found| (x.0 + d, x.1))
}

/// What the character scan reports in `bs[st..en]`, in positions of `bs`.
pub open spec fn piece_found(bs: Seq<u8>, st: int, en: int) -> Seq<Found> {
    shift_by(sisd_found(bs.subrange(st, en)), st)
}

/// What the rescan of group `g`'s region reports.
pub open spec fn region_found(bs: Seq<u8>, g: int) -> Seq<Found> {
    piece_found(bs, region(bs, g).0, region(bs, g).1)
}

/// What the block scan reports for the groups that end within blocks `0..n`.
pub open spec fn fires_found(bs: Seq<u8>, n: int) -> Seq<Found>
    decreases n,
{
    if n < BLOCKS_TO_MATCH {
        Seq::empty()
    } else if group_fires(bs, n - BLOCKS_TO_MATCH) {
        fires_found(bs, n - 1) + region_found(bs, n - BLOCKS_TO_MATCH)
    } else {
        fires_found(bs, n - 1)
    }
}

/// What the rescan of the tail reports.
pub open spec fn tail_found(bs: Seq<u8>) -> Seq<Found> {
    piece_found(bs, tail_start(bs), bs.len() as int)
}

/// Everything the block scan reports for `bs`, in order: the rescans of the
/// groups that pass the prefilter, then the rescan of the tail.
pub open spec fn simd_found(bs: Seq<u8>) -> Seq<Found> {
    fires_found(bs, (bs.len() as int) / (MATCH_LANES as int)) + tail_found(bs)
}

proof fn lemma_count_block_bound(bs: Seq<u8>, s: int, e: int, b: int)
    ensures
        count_block(bs, s, e, b) <= if e >= s { e - s } else { 0 },
    decreases e - s,
{
    if e > s {
        lemma_count_block_bound(bs, s, e - 1, b);
    }
}

proof fn lemma_block_total(bs: Seq<u8>, s: int, e: int)
    requires
        0 <= s <= e <= bs.len(),
        all_pat(bs, s, e),
    ensures
        sum_counts(block_histogram(bs, s, e), FREQ_BUCKETS as int) == e - s,
    decreases e - s,
{
    if e == s {
        lemma_zero_sum(block_histogram(bs, s, e), FREQ_BUCKETS as int);
    } else {
        lemma_block_total(bs, s, e - 1);
        let j = block_bucket(bs[e - 1]);
        assert(is_pat_byte(bs[e - 1]));
        lemma_sum_add_one(block_histogram(bs, s, e - 1), block_histogram(bs, s, e), FREQ_BUCKETS as int, j);
    }
}

proof fn lemma_fires_found_step(bs: Seq<u8>, n: int)
    requires
        n >= BLOCKS_TO_MATCH,
    ensures
        fires_found(bs, n) == if group_fires(bs, n - BLOCKS_TO_MATCH) {
            fires_found(bs, n - 1) + region_found(bs, n - BLOCKS_TO_MATCH)
        } else {
            fires_found(bs, n - 1)
        },
{
}

/// `next_boundary` lies between `p` and the end of the line, is a character
/// boundary, and skips only continuation bytes.
proof fn lemma_next_boundary(bs: Seq<u8>, p: int)
    requires
        valid_utf8(bs),
        0 <= p <= bs.len(),
    ensures
        p <= next_boundary(bs, p) <= bs.len(),
        is_char_boundary(bs, next_boundary(bs, p)),
        forall|q: int| p <= q < next_boundary(bs, p) ==> is_continuation_byte(#[trigger] bs[q]),
    decreases bs.len() - p,
{
    if p < bs.len() && is_continuation_byte(bs[p]) {
        lemma_next_boundary(bs, p + 1);
    } else if p < bs.len() {
        is_char_boundary_iff_not_is_continuation_byte(bs, p);
    } else {
        is_char_boundary_start_end_of_seq(bs);
    }
}

/// `next_boundary` keeps the order of positions and stays within the line.
proof fn lemma_next_boundary_order(bs: Seq<u8>, p: int, q: int)
    requires
        0 <= p <= q <= bs.len(),
    ensures
        p <= next_boundary(bs, p) <= next_boundary(bs, q) <= bs.len(),
    decreases 2 * bs.len() - p - q,
{
    if q < bs.len() && is_continuation_byte(bs[q]) {
        lemma_next_boundary_order(bs, p, q + 1);
    } else if p < q && p < bs.len() && is_continuation_byte(bs[p]) {
        lemma_next_boundary_order(bs, p + 1, q);
    }
}

proof fn lemma_region_bounds(bs: Seq<u8>, g: int)
    requires
        0 <= g,
        g * MATCH_LANES <= bs.len(),
    ensures
        0 <= region(bs, g).0 <= region(bs, g).1 <= bs.len(),
{
    let st = (if g > 1 { g } else { 1 } - 1) * MATCH_LANES;
    let en = if st + 2 * PAT_LEN < bs.len() { st + 2 * PAT_LEN } else { bs.len() as int };
    lemma_next_boundary_order(bs, st, en);
}

proof fn lemma_tail_bounds(bs: Seq<u8>)
    ensures
        0 <= tail_start(bs) <= bs.len(),
{
    let rem = (bs.len() as int) % (MATCH_LANES as int);
    let t = if rem + PAT_LEN - 1 < bs.len() { bs.len() - (rem + PAT_LEN - 1) } else { 0 };
    lemma_next_boundary_order(bs, t, bs.len() as int);
}

/// The first character boundary at or after byte `p`.
fn next_char_boundary(bytes: &[u8], p: usize) -> (r: usize)
    requires
        p <= bytes@.len(),
    ensures
        r == next_boundary(bytes@, p as int),
{
    let mut q = p;
    while q < bytes.len() && 0x80 <= bytes[q] && bytes[q] <= 0xbf
        invariant
            p <= q <= bytes@.len(),
            next_boundary(bytes@, q as int) == next_boundary(bytes@, p as int),
        decreases bytes@.len() - q,
    {
        q += 1;
    }
    q
}

/// Every byte of block `j` is a PAT byte.
fn block_all_pat(bytes: &[u8], j: usize) -> (r: bool)
    requires
        (j + 1) * MATCH_LANES <= bytes.len(),
    ensures
        r == all_pat(bytes@, j * MATCH_LANES, j * MATCH_LANES + MATCH_LANES),
{
    let base = j * MATCH_LANES;
    let mut k: usize = 0;
    while k < MATCH_LANES
        invariant
            base == j * MATCH_LANES,
            (j + 1) * MATCH_LANES <= bytes@.len(),
            0 <= k <= MATCH_LANES,
            all_pat(bytes@, base as int, base + k),
        decreases MATCH_LANES - k,
    {
        let c = bytes[base + k];
        let number = 48 <= c && c <= 57;
        let lowercase = 97 <= c && c <= 122;
        if !(number || lowercase) {
            return false;
        }
        k += 1;
    }
    true
}

/// Appends the matches `found` of the piece of the line that starts at byte
/// `d` to `out`, moving their starts by `d`.
fn append_shifted<'a>(
    out: &mut Vec<(usize, &'a str, usize)>,
    found: Vec<(usize, &'a str, usize)>,
    d: usize,
    Ghost(bs): Ghost<Seq<u8>>,
    Ghost(piece): Ghost<Seq<u8>>,
    Ghost(before): Ghost<Seq<Found>>,
    Ghost(f): Ghost<Seq<Found>>,
)
    requires
        reports(bs, old(out)@, before),
        reports(piece, found@, f),
        d + piece.len() <= bs.len() <= usize::MAX,
        piece == bs.subrange(d as int, d + piece.len()),
    ensures
        reports(bs, final(out)@, before + shift_by(f, d as int)),
{
    let mut k: usize = 0;
    let n = found.len();
    while k < n
        invariant
            n == found@.len(),
            0 <= k <= n,
            reports(piece, found@, f),
            d + piece.len() <= bs.len() <= usize::MAX,
            piece == bs.subrange(d as int, d + piece.len()),
            reports(bs, out@, before + shift_by(f, d as int).take(k as int)),
        decreases n - k,
    {
        let (start, sub, entropy) = found[k];
        let ghost fk = f[k as int];
        let ghost item = (fk.0 + d, fk.1);
        proof {
            assert(found@[k as int] == (start, sub, entropy));
            assert(sub.spec_bytes() =~= bs.subrange(item.0, item.0 + PAT_LEN));
            lemma_reports_push(
                bs,
                out@,
                before + shift_by(f, d as int).take(k as int),
                ((start + d) as usize, sub, entropy),
                item,
            );
            assert(before + shift_by(f, d as int).take(k + 1) =~= (before + shift_by(f, d as int).take(
                k as int,
            )).push(item));
        }
        out.push((start + d, sub, entropy));
        k += 1;
    }
    proof {
        assert(shift_by(f, d as int).take(n as int) =~= shift_by(f, d as int));
    }
}

/// Rescans `line[st..en]` with the character scan and appends what it finds,
/// in positions of `line`, to `out`.
fn rescan_piece<'a>(
    out: &mut Vec<(usize, &'a str, usize)>,
    line: &'a str,
    st: usize,
    en: usize,
    Ghost(before): Ghost<Seq<Found>>,
)
    requires
        reports(line.spec_bytes(), old(out)@, before),
        st <= en <= line.spec_bytes().len() <= usize::MAX,
        is_char_boundary(line.spec_bytes(), st as int),
        is_char_boundary(line.spec_bytes(), en as int),
    ensures
        reports(line.spec_bytes(), final(out)@, before + piece_found(line.spec_bytes(), st as int, en as int)),
{
    let piece = str_slice(line, st, en);
    let found = sisd_inner(piece);
    append_shifted(
        out,
        found,
        st,
        Ghost(line.spec_bytes()),
        Ghost(piece.spec_bytes()),
        Ghost(before),
        Ghost(sisd_found(piece.spec_bytes())),
    );
}

/// Every match of the block scan, in order (see [`simd_found`]): blocks of
/// eight bytes are inspected in groups of five, each group whose entropy
/// estimate passes the prefilter has its region rescanned by the character
/// scan, and the tail of the line is rescanned last.
pub fn simd_inner(line: &str) -> (r: Vec<(usize, &str, usize)>)
    ensures
        reports(line.spec_bytes(), r@, simd_found(line.spec_bytes())),
{
    let bytes = line.as_bytes();
    let ghost bs = line.spec_bytes();
    let ghost bm = block_marks(bs);
    let len = bytes.len();
    let n_blocks = len / MATCH_LANES;
    let mut out: Vec<(usize, &str, usize)> = Vec::new();
    let mut confirmed_blocks: u8 = 0;
    let mut counts = [0u8; FREQ_BUCKETS];
    let mut j: usize = 0;
    while j < n_blocks
        invariant
            bytes@ == bs,
            bs == line.spec_bytes(),
            valid_utf8(bs),
            len == bs.len(),
            n_blocks == (bs.len() as int) / (MATCH_LANES as int),
            bm == block_marks(bs),
            0 <= j <= n_blocks,
            blocks::scan_state(bm, j as int, confirmed_blocks as int),
            forall|b: int|
                0 <= b < FREQ_BUCKETS ==> #[trigger] counts[b] == count_block(
                    bs,
                    (j - confirmed_blocks) * MATCH_LANES,
                    j * MATCH_LANES,
                    b,
                ),
            reports(bs, out@, fires_found(bs, j as int)),
        decreases n_blocks - j,
    {
        let ghost base = j - confirmed_blocks;
        assert((j + 1) * 8 <= bs.len() && j * 8 + 8 <= bs.len()) by (nonlinear_arith)
            requires
                j < n_blocks,
                n_blocks == (bs.len() as int) / 8,
        ;
        proof {
            blocks::lemma_scan_state(bm, j as int, confirmed_blocks as int);
        }
        if block_all_pat(bytes, j) {
            assert(bm(j as int));
            let lane_base = j * 8;
            assert(lane_base == j * MATCH_LANES);
            let mut k: usize = 0;
            while k < MATCH_LANES
                invariant
                    bytes@ == bs,
                    lane_base == j * MATCH_LANES,
                    (j + 1) * MATCH_LANES <= bs.len(),
                    0 <= k <= MATCH_LANES,
                    base * MATCH_LANES <= lane_base,
                    lane_base + MATCH_LANES - base * MATCH_LANES <= BLOCKS_TO_MATCH * MATCH_LANES,
                    all_pat(bs, j * MATCH_LANES, j * MATCH_LANES + MATCH_LANES),
                    forall|b: int|
                        0 <= b < FREQ_BUCKETS ==> #[trigger] counts[b] == count_block(
                            bs,
                            base * MATCH_LANES,
                            lane_base + k,
                            b,
                        ),
                decreases MATCH_LANES - k,
            {
                let c = bytes[lane_base + k];
                assert(is_pat_byte(bs[lane_base + k]));
                let index: u8 = if 48 <= c && c <= 57 { c - 48 } else { c - 97 + 10 };
                let ghost old_counts = counts;
                proof {
                    lemma_count_block_bound(bs, base * MATCH_LANES, lane_base + k, index as int);
                }
                counts[index as usize] += 1;
                assert forall|b: int| 0 <= b < FREQ_BUCKETS implies #[trigger] counts[b]
                    == count_block(bs, base * MATCH_LANES, lane_base + k + 1, b) by {
                    assert(old_counts[b] == count_block(bs, base * MATCH_LANES, lane_base + k, b));
                }
                k += 1;
            }
            confirmed_blocks += 1;
            if confirmed_blocks == BLOCKS_TO_MATCH {
                let ghost g = base;
                let ghost h = counts_view(counts);
                proof {
                    blocks::lemma_step_group(bm, j as int, confirmed_blocks - 1);
                    assert(h =~= block_histogram(bs, g * MATCH_LANES, (g + BLOCKS_TO_MATCH) * MATCH_LANES));
                    assert(all_pat(bs, g * MATCH_LANES, (g + BLOCKS_TO_MATCH) * MATCH_LANES)) by {
                        assert forall|p: int| g * MATCH_LANES <= p < (g + BLOCKS_TO_MATCH) * MATCH_LANES
                            implies is_pat_byte(#[trigger] bs[p]) by {
                            let blk = p / 8;
                            assert(bm(g + (blk - g)));
                        }
                    }
                    lemma_block_total(bs, g * MATCH_LANES, (g + BLOCKS_TO_MATCH) * MATCH_LANES);
                    assert forall|b: int| 0 <= b < FREQ_BUCKETS implies 0 <= #[trigger] h[b] by {}
                    lemma_squares_le_square_of_sum(h, FREQ_BUCKETS as int);
                    let t = sum_counts(h, FREQ_BUCKETS as int);
                    assert(t == 40);
                    assert(t * t == 1600) by (nonlinear_arith)
                        requires
                            t == 40,
                    ;
                    assert(sum_squares(h, FREQ_BUCKETS as int) <= 1600);
                    assert forall|b: int| 0 <= b < FREQ_BUCKETS implies #[trigger] counts[b] <= 52 by {
                        lemma_count_block_bound(bs, g * MATCH_LANES, (g + BLOCKS_TO_MATCH) * MATCH_LANES, b);
                    }
                    lemma_fires_found_step(bs, j + 1);
                }
                let sum = sum_of_squares(&counts);
                let entropy = HIGHEST_ESTIMATE - sum;
                assert(entropy == group_entropy(bs, g));
                if entropy > SIMD_ENTROPY_BOUND {
                    assert(group_fires(bs, g));
                    let group_start = j + 1 - 5;
                    assert(group_start == g);
                    let first = if group_start > 1 { group_start } else { 1 };
                    let start_index = (first - 1) * 8;
                    let end_index = if len - start_index > 104 { start_index + 104 } else { len };
                    let st = next_char_boundary(bytes, start_index);
                    let en = next_char_boundary(bytes, end_index);
                    proof {
                        lemma_region_bounds(bs, g);
                        lemma_next_boundary(bs, start_index as int);
                        lemma_next_boundary(bs, end_index as int);
                    }
                    assert(st == region(bs, g).0 && en == region(bs, g).1);
                    rescan_piece(&mut out, line, st, en, Ghost(fires_found(bs, j as int)));
                }
            } else {
                proof {
                    blocks::lemma_step_extend(bm, j as int, confirmed_blocks - 1);
                    if j + 1 >= BLOCKS_TO_MATCH {
                        assert(!blocks::is_group(bm, j + 1 - BLOCKS_TO_MATCH));
                        lemma_fires_found_step(bs, j + 1);
                    }
                }
                j += 1;
                continue;
            }
        } else {
            proof {
                assert(!bm(j as int));
                blocks::lemma_step_break(bm, j as int, confirmed_blocks as int);
                if j + 1 >= BLOCKS_TO_MATCH {
                    assert(!blocks::is_group(bm, j + 1 - BLOCKS_TO_MATCH));
                    lemma_fires_found_step(bs, j + 1);
                }
            }
        }
        counts = [0u8; FREQ_BUCKETS];
        confirmed_blocks = 0;
        j += 1;
    }
    let remainder = len - n_blocks * MATCH_LANES;
    let back = if remainder + (PAT_LEN as usize) - 1 < len {
        remainder + (PAT_LEN as usize) - 1
    } else {
        len
    };
    let start_index = next_char_boundary(bytes, len - back);
    proof {
        lemma_next_boundary(bs, len - back);
        is_char_boundary_start_end_of_seq(bs);
    }
    assert(start_index == tail_start(bs));
    rescan_piece(&mut out, line, start_index, len, Ghost(fires_found(bs, n_blocks as int)));
    out
}

/// The matches of the block scan as an iterator.
pub fn simd_iter(line: &str) -> (r: std::vec::IntoIter<(usize, &str, usize)>)
    ensures
        reports(line.spec_bytes(), r.remaining(), simd_found(line.spec_bytes())),
{
    let found = simd_inner(line);
    let ghost v = found@;
    let r = found.into_iter();
    assert(r.remaining() == v);
    r
}

/// Keeps, in order, the first entry for each reported start.
pub open spec fn first_per_start(f: Seq<Found>) -> Seq<Found>
    decreases f.len(),
{
    if f.len() == 0 {
        f
    } else {
        let rest = first_per_start(f.drop_last());
        if exists|k: int| 0 <= k < f.len() - 1 && #[trigger] f[k].0 == f.last().0 {
            rest
        } else {
            rest.push(f.last())
        }
    }
}

/// Keeps the first match for each reported start.
fn keep_first_per_start<'a>(
    all: Vec<(usize, &'a str, usize)>,
    Ghost(bs): Ghost<Seq<u8>>,
    Ghost(f): Ghost<Seq<Found>>,
) -> (r: Vec<(usize, &'a str, usize)>)
    requires
        reports(bs, all@, f),
    ensures
        reports(bs, r@, first_per_start(f)),
{
    let mut seen: std::collections::HashSet<usize> = std::collections::HashSet::new();
    let mut out: Vec<(usize, &'a str, usize)> = Vec::new();
    let n = all.len();
    let mut i: usize = 0;
    proof {
        assert(f.take(0) =~= Seq::<Found>::empty());
    }
    while i < n
        invariant
            n == all@.len(),
            0 <= i <= n,
            reports(bs, all@, f),
            reports(bs, out@, first_per_start(f.take(i as int))),
            forall|x: usize|
                seen@.contains(x) <==> exists|k: int| 0 <= k < i && #[trigger] all@[k].0 == x,
        decreases n - i,
    {
        let item = all[i];
        let ghost prefix = f.take(i + 1);
        proof {
            assert(prefix.drop_last() =~= f.take(i as int));
            assert(prefix.last() == f[i as int]);
            assert(all@[i as int] == item);
            assert((exists|k: int| 0 <= k < prefix.len() - 1 && #[trigger] prefix[k].0 == prefix.last().0)
                <==> seen@.contains(item.0)) by {
                if seen@.contains(item.0) {
                    let k = choose|k: int| 0 <= k < i && #[trigger] all@[k].0 == item.0;
                    assert(prefix[k].0 == all@[k].0);
                }
                if exists|k: int| 0 <= k < prefix.len() - 1 && #[trigger] prefix[k].0 == prefix.last().0 {
                    let k = choose|k: int| 0 <= k < prefix.len() - 1 && #[trigger] prefix[k].0 == prefix.last().0;
                    assert(prefix[k].0 == all@[k].0);
                }
            }
        }
        if seen.insert(item.0) {
            proof {
                lemma_reports_push(bs, out@, first_per_start(f.take(i as int)), item, f[i as int]);
            }
            out.push(item);
        }
        i += 1;
    }
    proof {
        assert(f.take(n as int) =~= f);
    }
    out
}

/// Every match of the block scan, keeping only the first match for each start.
pub fn simd(line: &str) -> (r: Vec<(usize, &str, usize)>)
    ensures
        reports(line.spec_bytes(), r@, first_per_start(simd_found(line.spec_bytes()))),
{
    let found = simd_inner(line);
    keep_first_per_start(found, Ghost(line.spec_bytes()), Ghost(simd_found(line.spec_bytes())))
}


// ---------------------------------------------------------------------------
// Laws
// ---------------------------------------------------------------------------

proof fn lemma_count_text_shift(bs: Seq<u8>, st: int, en: int, s: int, e: int, b: int)
    requires
        0 <= st <= en <= bs.len(),
        0 <= s <= e <= en - st,
    ensures
        count_text(bs.subrange(st, en), s, e, b) == count_text(bs, st + s, st + e, b),
    decreases e - s,
{
    if s < e {
        lemma_count_text_shift(bs, st, en, s, e - 1, b);
    }
}

/// Every match of the character scan is a run of 52 PAT bytes of the line,
/// reported with that window's entropy estimate, which exceeds the bound.
pub proof fn lemma_sisd_found_sound(bs: Seq<u8>)
    ensures
        forall|k: int|
            0 <= k < sisd_found(bs).len() ==> {
                let f = #[trigger] sisd_found(bs)[k];
                &&& pat_span(bs, f.0)
                &&& f.1 == window_entropy(bs, f.0)
                &&& f.1 > SISD_ENTROPY_BOUND
            },
{
    lemma_hits_upto(bs, bs.len() as int);
}

proof fn lemma_hits_increasing(bs: Seq<u8>, n: int)
    ensures
        forall|i: int, j: int|
            0 <= i < j < hits_upto(bs, n).len() ==> #[trigger] hits_upto(bs, n)[i] < #[trigger] hits_upto(
                bs,
                n,
            )[j],
        forall|k: int| 0 <= k < hits_upto(bs, n).len() ==> #[trigger] hits_upto(bs, n)[k] <= n - PAT_LEN,
    decreases n,
{
    if n >= PAT_LEN {
        lemma_hits_increasing(bs, n - 1);
        let prev = hits_upto(bs, n - 1);
        let cur = hits_upto(bs, n);
        assert forall|k: int| 0 <= k < cur.len() implies #[trigger] cur[k] <= n - PAT_LEN by {
            if k < prev.len() {
                assert(cur[k] == prev[k]);
            }
        }
        assert forall|i: int, j: int| 0 <= i < j < cur.len() implies #[trigger] cur[i] < #[trigger] cur[j] by {
            assert(cur[i] == prev[i]);
            if j < prev.len() {
                assert(cur[j] == prev[j]);
            }
        }
    }
}

/// The windows of the character scan's matches do not overlap: each match
/// starts at least 52 bytes after the one before it.
pub proof fn lemma_sisd_found_disjoint(bs: Seq<u8>)
    ensures
        forall|i: int, j: int|
            0 <= i < j < sisd_found(bs).len() ==> (#[trigger] sisd_found(bs)[i]).0 + PAT_LEN <= (
            #[trigger] sisd_found(bs)[j]).0,
{
    let hits = hits_upto(bs, bs.len() as int);
    lemma_hits_increasing(bs, bs.len() as int);
    lemma_hits_upto(bs, bs.len() as int);
    assert forall|i: int, j: int| 0 <= i < j < sisd_found(bs).len() implies (
    #[trigger] sisd_found(bs)[i]).0 + PAT_LEN <= (#[trigger] sisd_found(bs)[j]).0 by {
        let s1 = hits[i];
        let s2 = hits[j];
        assert(s1 < s2);
        assert(is_hit(bs, s1) && is_hit(bs, s2));
        lemma_run_start(bs, s2);
        let r2 = run_start(bs, s2);
        if r2 <= s1 {
            lemma_run_start_same(bs, s1, s2);
        } else {
            assert(all_pat(bs, s1, s1 + PAT_LEN));
            assert(r2 - 1 >= s1 + PAT_LEN) by {
                if r2 - 1 < s1 + PAT_LEN {
                    assert(is_pat_byte(bs[r2 - 1]));
                }
            }
        }
    }
}

/// Every match that a rescan of `bs[st..en]` reports is a run of 52 PAT bytes
/// of `bs`, reported with its entropy estimate in `bs`, which exceeds the bound.
proof fn lemma_piece_found_sound(bs: Seq<u8>, st: int, en: int)
    requires
        0 <= st <= en <= bs.len(),
    ensures
        forall|k: int|
            0 <= k < piece_found(bs, st, en).len() ==> {
                let f = #[trigger] piece_found(bs, st, en)[k];
                &&& pat_span(bs, f.0)
                &&& f.1 == window_entropy(bs, f.0)
                &&& f.1 > SISD_ENTROPY_BOUND
            },
{
    let piece = bs.subrange(st, en);
    lemma_sisd_found_sound(piece);
    assert forall|k: int| 0 <= k < piece_found(bs, st, en).len() implies {
        let f = #[trigger] piece_found(bs, st, en)[k];
        &&& pat_span(bs, f.0)
        &&& f.1 == window_entropy(bs, f.0)
        &&& f.1 > SISD_ENTROPY_BOUND
    } by {
        let g = sisd_found(piece)[k];
        let t = g.0;
        assert(pat_span(piece, t));
        assert forall|i: int| t + st <= i < t + st + PAT_LEN implies is_pat_byte(#[trigger] bs[i]) by {
            assert(piece[i - st] == bs[i]);
        }
        assert forall|b: int| 0 <= b < PAT_CHARS implies #[trigger] text_histogram(piece, t, t + PAT_LEN)[b]
            == text_histogram(bs, st + t, st + t + PAT_LEN)[b] by {
            lemma_count_text_shift(bs, st, en, t, t + PAT_LEN, b);
        }
        assert(text_histogram(piece, t, t + PAT_LEN) =~= text_histogram(bs, st + t, st + t + PAT_LEN));
    }
}

proof fn lemma_fires_found_sound(bs: Seq<u8>, n: int)
    requires
        0 <= n <= (bs.len() as int) / (MATCH_LANES as int),
    ensures
        forall|k: int|
            0 <= k < fires_found(bs, n).len() ==> {
                let f = #[trigger] fires_found(bs, n)[k];
                &&& pat_span(bs, f.0)
                &&& f.1 == window_entropy(bs, f.0)
                &&& f.1 > SISD_ENTROPY_BOUND
            },
    decreases n,
{
    if n >= BLOCKS_TO_MATCH {
        lemma_fires_found_sound(bs, n - 1);
        lemma_fires_found_step(bs, n);
        let g = n - BLOCKS_TO_MATCH;
        if group_fires(bs, g) {
            let prev = fires_found(bs, n - 1);
            lemma_region_bounds(bs, g);
            let (st, en) = region(bs, g);
            lemma_piece_found_sound(bs, st, en);
            assert forall|k: int| 0 <= k < fires_found(bs, n).len() implies {
                let f = #[trigger] fires_found(bs, n)[k];
                &&& pat_span(bs, f.0)
                &&& f.1 == window_entropy(bs, f.0)
                &&& f.1 > SISD_ENTROPY_BOUND
            } by {
                if k < prev.len() {
                    assert(fires_found(bs, n)[k] == prev[k]);
                } else {
                    assert(fires_found(bs, n)[k] == region_found(bs, g)[k - prev.len()]);
                }
            }
        }
    }
}

/// Every match of the block scan is a run of 52 PAT bytes of the line,
/// reported with that window's entropy estimate, which exceeds the bound of
/// the character scan.
pub proof fn lemma_simd_found_sound(bs: Seq<u8>)
    ensures
        forall|k: int|
            0 <= k < simd_found(bs).len() ==> {
                let f = #[trigger] simd_found(bs)[k];
                &&& pat_span(bs, f.0)
                &&& f.1 == window_entropy(bs, f.0)
                &&& f.1 > SISD_ENTROPY_BOUND
            },
{
    let n = (bs.len() as int) / (MATCH_LANES as int);
    lemma_fires_found_sound(bs, n);
    lemma_tail_bounds(bs);
    lemma_piece_found_sound(bs, tail_start(bs), bs.len() as int);
    let fires = fires_found(bs, n);
    assert forall|k: int| 0 <= k < simd_found(bs).len() implies {
        let f = #[trigger] simd_found(bs)[k];
        &&& pat_span(bs, f.0)
        &&& f.1 == window_entropy(bs, f.0)
        &&& f.1 > SISD_ENTROPY_BOUND
    } by {
        if k < fires.len() {
            assert(simd_found(bs)[k] == fires[k]);
        } else {
            assert(simd_found(bs)[k] == tail_found(bs)[k - fires.len()]);
        }
    }
}

proof fn lemma_no_hits(bs: Seq<u8>, n: int)
    requires
        forall|s: int| !#[trigger] is_hit(bs, s),
    ensures
        hits_upto(bs, n).len() == 0,
    decreases n,
{
    if n >= PAT_LEN {
        lemma_no_hits(bs, n - 1);
        assert(!is_hit(bs, n - PAT_LEN));
    }
}

/// When no piece of the line holds a hit, neither scan reports anything.
proof fn lemma_no_piece_hits(bs: Seq<u8>)
    requires
        forall|st: int, en: int, s: int|
            0 <= st <= en <= bs.len() ==> !#[trigger] is_hit(bs.subrange(st, en), s),
    ensures
        sisd_found(bs).len() == 0,
        simd_found(bs).len() == 0,
{
    assert(bs.subrange(0, bs.len() as int) =~= bs);
    assert forall|s: int| !#[trigger] is_hit(bs, s) by {
        assert(!is_hit(bs.subrange(0, bs.len() as int), s));
    }
    lemma_no_hits(bs, bs.len() as int);
    lemma_tail_bounds(bs);
    let ts = tail_start(bs);
    assert forall|s: int| !#[trigger] is_hit(bs.subrange(ts, bs.len() as int), s) by {}
    lemma_no_hits(bs.subrange(ts, bs.len() as int), bs.len() - ts);
    lemma_no_fires_found(bs, (bs.len() as int) / (MATCH_LANES as int));
}

proof fn lemma_no_fires_found(bs: Seq<u8>, n: int)
    requires
        forall|st: int, en: int, s: int|
            0 <= st <= en <= bs.len() ==> !#[trigger] is_hit(bs.subrange(st, en), s),
        n <= (bs.len() as int) / (MATCH_LANES as int),
    ensures
        fires_found(bs, n).len() == 0,
    decreases n,
{
    if n >= BLOCKS_TO_MATCH {
        lemma_no_fires_found(bs, n - 1);
        let g = n - BLOCKS_TO_MATCH;
        if group_fires(bs, g) {
            lemma_region_bounds(bs, g);
            let (st, en) = region(bs, g);
            assert forall|s: int| !#[trigger] is_hit(bs.subrange(st, en), s) by {}
            lemma_no_hits(bs.subrange(st, en), en - st);
        }
    }
}

/// A line without 52 consecutive PAT bytes has no match: both scans report nothing.
pub proof fn lemma_no_pat_run_no_match(bs: Seq<u8>)
    requires
        forall|s: int| !#[trigger] pat_span(bs, s),
    ensures
        sisd_found(bs).len() == 0,
        simd_found(bs).len() == 0,
{
    assert forall|st: int, en: int, s: int| 0 <= st <= en <= bs.len() implies !#[trigger] is_hit(
        bs.subrange(st, en),
        s,
    ) by {
        if is_hit(bs.subrange(st, en), s) {
            assert forall|i: int| st + s <= i < st + s + PAT_LEN implies is_pat_byte(#[trigger] bs[i]) by {
                assert(bs.subrange(st, en)[i - st] == bs[i]);
            }
            assert(pat_span(bs, st + s));
        }
    }
    lemma_no_piece_hits(bs);
}

/// A byte that is a lowercase hexadecimal digit: `'0'..='9'` or `'a'..='f'`.
pub open spec fn is_hex_byte(c: u8) -> bool {
    (48 <= c <= 57) || (97 <= c <= 102)
}

/// Number of buckets below `n` that a lowercase hexadecimal digit can fall
/// into: the letters `a..=f` (0..=5) and the digits (26..=35).
pub open spec fn hex_buckets(n: int) -> int {
    if n <= 6 {
        n
    } else if n <= 26 {
        6
    } else {
        n - 20
    }
}

/// With the buckets 6..=25 empty, each integer count `c` satisfies
/// `(c - 3) * (c - 4) >= 0`, which bounds the sum of squares from below.
proof fn lemma_hex_squares(h: Seq<int>, n: int)
    requires
        0 <= n <= h.len(),
        forall|b: int| 6 <= b < 26 && b < n ==> #[trigger] h[b] == 0,
    ensures
        sum_squares(h, n) - 7 * sum_counts(h, n) + 12 * hex_buckets(n) >= 0,
    decreases n,
{
    if n > 0 {
        lemma_hex_squares(h, n - 1);
        let c = h[n - 1];
        if 6 <= n - 1 < 26 {
            assert(c == 0);
        } else {
            assert(c * c - 7 * c + 12 >= 0) by (nonlinear_arith);
        }
    }
}

proof fn lemma_count_text_zero(bs: Seq<u8>, s: int, e: int, b: int)
    requires
        0 <= s <= e <= bs.len(),
        6 <= b < 26,
        forall|k: int| s <= k < e ==> is_hex_byte(#[trigger] bs[k]),
    ensures
        count_text(bs, s, e, b) == 0,
    decreases e - s,
{
    if e > s {
        assert(is_hex_byte(bs[e - 1]));
        lemma_count_text_zero(bs, s, e - 1, b);
    }
}

/// A window of 52 lowercase hexadecimal digits has an entropy estimate of at
/// most the bound, so the character scan never reports it.
pub proof fn lemma_hex_window_not_pat(bs: Seq<u8>, s: int)
    requires
        0 <= s,
        s + PAT_LEN <= bs.len(),
        forall|k: int| s <= k < s + PAT_LEN ==> is_hex_byte(#[trigger] bs[k]),
    ensures
        window_entropy(bs, s) <= SISD_ENTROPY_BOUND,
        !is_hit(bs, s),
{
    let h = text_histogram(bs, s, s + PAT_LEN);
    assert forall|b: int| 6 <= b < 26 && b < PAT_CHARS implies #[trigger] h[b] == 0 by {
        lemma_count_text_zero(bs, s, s + PAT_LEN, b);
    }
    assert(all_pat(bs, s, s + PAT_LEN)) by {
        assert forall|k: int| s <= k < s + PAT_LEN implies is_pat_byte(#[trigger] bs[k]) by {
            assert(is_hex_byte(bs[k]));
        }
    }
    lemma_text_total(bs, s, s + PAT_LEN);
    lemma_hex_squares(h, PAT_CHARS as int);
}

/// A line of lowercase hexadecimal digits has no match: both scans report nothing.
pub proof fn lemma_hex_line_no_match(bs: Seq<u8>)
    requires
        forall|k: int| 0 <= k < bs.len() ==> is_hex_byte(#[trigger] bs[k]),
    ensures
        sisd_found(bs).len() == 0,
        simd_found(bs).len() == 0,
{
    assert forall|st: int, en: int, s: int| 0 <= st <= en <= bs.len() implies !#[trigger] is_hit(
        bs.subrange(st, en),
        s,
    ) by {
        let piece = bs.subrange(st, en);
        if is_hit(piece, s) {
            assert forall|k: int| s <= k < s + PAT_LEN implies is_hex_byte(#[trigger] piece[k]) by {
                assert(piece[k] == bs[st + k]);
            }
            lemma_hex_window_not_pat(piece, s);
        }
    }
    lemma_no_piece_hits(bs);
}

/// Two lists that report the same entries of the same line agree: the same
/// starts, texts and entropy estimates, in the same order.  So the collected
/// iterators of the scans give what the scans give.
pub proof fn lemma_reports_agree(
    bs: Seq<u8>,
    v1: Seq<(usize, &str, usize)>,
    v2: Seq<(usize, &str, usize)>,
    f: Seq<Found>,
)
    requires
        reports(bs, v1, f),
        reports(bs, v2, f),
    ensures
        v1.len() == v2.len(),
        forall|k: int|
            0 <= k < v1.len() ==> {
                &&& (#[trigger] v1[k]).0 == v2[k].0
                &&& v1[k].1@ == v2[k].1@
                &&& v1[k].2 == v2[k].2
            },
{
    assert forall|k: int| 0 <= k < v1.len() implies {
        &&& (#[trigger] v1[k]).0 == v2[k].0
        &&& v1[k].1@ == v2[k].1@
        &&& v1[k].2 == v2[k].2
    } by {
        assert(v1[k].1.spec_bytes() == v2[k].1.spec_bytes());
        encode_utf8_decode_utf8(v1[k].1@);
        encode_utf8_decode_utf8(v2[k].1@);
    }
}

/// `first_per_start` keeps at most one entry for each start, takes its entries
/// from `f`, and keeps an entry for every start of `f`.
pub proof fn lemma_first_per_start(f: Seq<Found>)
    ensures
        forall|i: int, j: int|
            0 <= i < j < first_per_start(f).len() ==> #[trigger] first_per_start(f)[i].0
                != #[trigger] first_per_start(f)[j].0,
        forall|i: int| 0 <= i < first_per_start(f).len() ==> f.contains(#[trigger] first_per_start(f)[i]),
        forall|k: int|
            0 <= k < f.len() ==> exists|i: int|
                0 <= i < first_per_start(f).len() && #[trigger] first_per_start(f)[i].0 == (#[trigger] f[k]).0,
    decreases f.len(),
{
    if f.len() > 0 {
        let init = f.drop_last();
        let rest = first_per_start(init);
        lemma_first_per_start(init);
        let r = first_per_start(f);
        assert forall|i: int| 0 <= i < rest.len() implies f.contains(#[trigger] rest[i]) by {
            let k = choose|k: int| 0 <= k < init.len() && init[k] == rest[i];
            assert(f[k] == rest[i]);
        }
        if exists|k: int| 0 <= k < f.len() - 1 && #[trigger] f[k].0 == f.last().0 {
            let k0 = choose|k: int| 0 <= k < f.len() - 1 && #[trigger] f[k].0 == f.last().0;
            assert forall|k: int| 0 <= k < f.len() implies exists|i: int|
                0 <= i < r.len() && #[trigger] r[i].0 == (#[trigger] f[k]).0 by {
                if k < f.len() - 1 {
                    assert(init[k] == f[k]);
                } else {
                    assert(init[k0] == f[k0]);
                }
            }
        } else {
            assert(r == rest.push(f.last()));
            assert forall|i: int, j: int| 0 <= i < j < r.len() implies #[trigger] r[i].0 != #[trigger] r[j].0 by {
                if j == r.len() - 1 {
                    assert(r[i] == rest[i]);
                    let k = choose|k: int| 0 <= k < init.len() && init[k] == rest[i];
                    assert(f[k] == init[k]);
                } else {
                    assert(r[i] == rest[i] && r[j] == rest[j]);
                }
            }
            assert forall|i: int| 0 <= i < r.len() implies f.contains(#[trigger] r[i]) by {
                if i < rest.len() {
                    assert(r[i] == rest[i]);
                } else {
                    assert(r[i] == f[f.len() - 1]);
                }
            }
            assert forall|k: int| 0 <= k < f.len() implies exists|i: int|
                0 <= i < r.len() && #[trigger] r[i].0 == (#[trigger] f[k]).0 by {
                if k < f.len() - 1 {
                    assert(init[k] == f[k]);
                    let i = choose|i: int| 0 <= i < rest.len() && #[trigger] rest[i].0 == init[k].0;
                    assert(r[i] == rest[i]);
                } else {
                    assert(r[r.len() - 1] == f.last());
                }
            }
        }
    }
}

proof fn lemma_hits_upto_contains(bs: Seq<u8>, n: int, s: int)
    requires
        is_hit(bs, s),
        s + PAT_LEN <= n,
    ensures
        hits_upto(bs, n).contains(s),
    decreases n,
{
    if n - PAT_LEN == s {
        assert(hits_upto(bs, n).last() == s);
    } else {
        lemma_hits_upto_contains(bs, n - 1, s);
        let prev = hits_upto(bs, n - 1);
        let k = choose|k: int| 0 <= k < prev.len() && prev[k] == s;
        if is_hit(bs, n - PAT_LEN) {
            assert(hits_upto(bs, n)[k] == s);
        }
    }
}

/// The character scan reports every hit.
proof fn lemma_sisd_found_contains(bs: Seq<u8>, s: int)
    requires
        is_hit(bs, s),
    ensures
        sisd_found(bs).contains(hit_found(bs, s)),
{
    lemma_hits_upto_contains(bs, bs.len() as int, s);
    let hits = hits_upto(bs, bs.len() as int);
    let k = choose|k: int| 0 <= k < hits.len() && hits[k] == s;
    assert(sisd_found(bs)[k] == hit_found(bs, s));
}

proof fn lemma_fires_found_contains(bs: Seq<u8>, g: int, m: int, x: Found)
    requires
        0 <= g,
        group_fires(bs, g),
        g + BLOCKS_TO_MATCH <= m,
        region_found(bs, g).contains(x),
    ensures
        fires_found(bs, m).contains(x),
    decreases m,
{
    lemma_fires_found_step(bs, m);
    let prev = fires_found(bs, m - 1);
    if m == g + BLOCKS_TO_MATCH {
        let k = choose|k: int| 0 <= k < region_found(bs, g).len() && region_found(bs, g)[k] == x;
        assert(fires_found(bs, m)[prev.len() + k] == x);
    } else {
        lemma_fires_found_contains(bs, g, m - 1, x);
        let k = choose|k: int| 0 <= k < prev.len() && prev[k] == x;
        assert(fires_found(bs, m)[k] == x);
    }
}

proof fn lemma_next_boundary_at_most(bs: Seq<u8>, a: int, b: int)
    requires
        0 <= a <= b < bs.len(),
        !is_continuation_byte(bs[b]),
    ensures
        next_boundary(bs, a) <= b,
    decreases b - a,
{
    if a < b && is_continuation_byte(bs[a]) {
        lemma_next_boundary_at_most(bs, a + 1, b);
    }
}

/// A hit that starts its run of PAT bytes (at the start of the line or after
/// a byte that cannot occur in a PAT) is reported by the block scan, with its
/// entropy estimate, when the prefilter passes on the first group of blocks
/// inside it.
pub proof fn lemma_simd_finds_run_start_hit(bs: Seq<u8>, p: int)
    requires
        is_hit(bs, p),
        p == 0 || !is_pat_byte(bs[p - 1]),
        group_entropy(bs, (p + MATCH_LANES - 1) / (MATCH_LANES as int)) > SIMD_ENTROPY_BOUND,
    ensures
        simd_found(bs).contains((p, window_entropy(bs, p))),
        exists|i: int|
            0 <= i < first_per_start(simd_found(bs)).len() && #[trigger] first_per_start(simd_found(bs))[i]
                == (p, window_entropy(bs, p)),
{
    let g = (p + MATCH_LANES - 1) / (MATCH_LANES as int);
    let bm = block_marks(bs);
    assert(g * 8 >= p && g * 8 <= p + 7);
    assert forall|k: int| 0 <= k < BLOCKS_TO_MATCH implies #[trigger] bm(g + k) by {
        assert forall|i: int| (g + k) * MATCH_LANES <= i < (g + k) * MATCH_LANES + MATCH_LANES implies is_pat_byte(
            #[trigger] bs[i],
        ) by {
            assert(p <= i < p + PAT_LEN);
        }
    }
    if g > 0 {
        assert(!bm(g - 1)) by {
            assert((g - 1) * 8 <= p - 1 < (g - 1) * 8 + 8);
        }
    }
    assert(blocks::block_run_start(bm, g) == g);
    assert(blocks::all_blocks(bm, g, BLOCKS_TO_MATCH as int));
    assert(group_fires(bs, g));
    let st0 = (if g > 1 { g } else { 1 } - 1) * MATCH_LANES;
    let en0 = if st0 + 2 * PAT_LEN < bs.len() { st0 + 2 * PAT_LEN } else { bs.len() as int };
    assert(st0 <= p && p + PAT_LEN <= en0 <= bs.len());
    lemma_next_boundary_order(bs, st0, en0);
    lemma_next_boundary_order(bs, en0, bs.len() as int);
    assert(is_pat_byte(bs[p]));
    lemma_next_boundary_at_most(bs, st0, p);
    let (st, en) = region(bs, g);
    assert(0 <= st <= p && p + PAT_LEN <= en <= bs.len());
    let piece = bs.subrange(st, en);
    let q = p - st;
    assert forall|k: int| q <= k < q + PAT_LEN implies is_pat_byte(#[trigger] piece[k]) by {
        assert(piece[k] == bs[st + k]);
    }
    if q > 0 {
        assert(piece[q - 1] == bs[p - 1]);
    }
    assert(run_start(piece, q) == q);
    assert forall|b: int| 0 <= b < PAT_CHARS implies #[trigger] text_histogram(piece, q, q + PAT_LEN)[b]
        == text_histogram(bs, p, p + PAT_LEN)[b] by {
        lemma_count_text_shift(bs, st, en, q, q + PAT_LEN, b);
    }
    assert(text_histogram(piece, q, q + PAT_LEN) =~= text_histogram(bs, p, p + PAT_LEN));
    assert(is_hit(piece, q));
    lemma_sisd_found_contains(piece, q);
    let x = (p, window_entropy(bs, p));
    let k = choose|k: int| 0 <= k < sisd_found(piece).len() && sisd_found(piece)[k] == hit_found(piece, q);
    assert(region_found(bs, g)[k] == x);
    let n = (bs.len() as int) / (MATCH_LANES as int);
    assert(bm(g + 4));
    lemma_fires_found_contains(bs, g, n, x);
    let fires = fires_found(bs, n);
    let i = choose|i: int| 0 <= i < fires.len() && fires[i] == x;
    assert(simd_found(bs)[i] == x);
    let f = simd_found(bs);
    lemma_first_per_start(f);
    lemma_simd_found_sound(bs);
    let j = choose|j: int| 0 <= j < first_per_start(f).len() && #[trigger] first_per_start(f)[j].0 == f[i].0;
    let y = first_per_start(f)[j];
    assert(f.contains(y));
    let m = choose|m: int| 0 <= m < f.len() && f[m] == y;
    assert(f[m].1 == window_entropy(bs, f[m].0));
    assert(y == x);
}

// ---------------------------------------------------------------------------
// The estimates in terms of characters
// ---------------------------------------------------------------------------

/// Number of bytes of `bs[s..e]` equal to `c`.
pub open spec fn byte_count(bs: Seq<u8>, s: int, e: int, c: int) -> int
    decreases e - s,
{
    if e <= s {
        0
    } else {
        byte_count(bs, s, e - 1, c) + if bs[e - 1] == c {
            1int
        } else {
            0int
        }
    }
}

/// For each byte value `c`, the square of the number of bytes of `bs[s..e]` equal to `c`.
pub open spec fn count_squares(bs: Seq<u8>, s: int, e: int) -> spec_fn(int) -> int {
    |c: int| byte_count(bs, s, e, c) * byte_count(bs, s, e, c)
}

/// The sum, over all byte values, of the squared number of occurrences in
/// `bs[s..e]`: every distinct character counts on its own.
pub open spec fn char_squares(bs: Seq<u8>, s: int, e: int) -> int {
    range_sum(count_squares(bs, s, e), 0, 256)
}

/// A byte value that is a PAT character.
pub open spec fn is_pat_value(c: int) -> bool {
    (48 <= c <= 57) || (97 <= c <= 122)
}

proof fn lemma_byte_count_other(bs: Seq<u8>, s: int, e: int, c: int)
    requires
        0 <= s <= e <= bs.len(),
        all_pat(bs, s, e),
        !is_pat_value(c),
    ensures
        byte_count(bs, s, e, c) == 0,
    decreases e - s,
{
    if e > s {
        assert(is_pat_byte(bs[e - 1]));
        lemma_byte_count_other(bs, s, e - 1, c);
    }
}

proof fn lemma_count_text_bytes(bs: Seq<u8>, s: int, e: int, b: int)
    requires
        0 <= s <= e <= bs.len(),
        all_pat(bs, s, e),
        0 <= b < PAT_CHARS,
    ensures
        count_text(bs, s, e, b) == byte_count(bs, s, e, if b < 26 { 97 + b } else { 22 + b }),
    decreases e - s,
{
    if e > s {
        assert(is_pat_byte(bs[e - 1]));
        lemma_count_text_bytes(bs, s, e - 1, b);
    }
}

proof fn lemma_count_block_bytes(bs: Seq<u8>, s: int, e: int, b: int)
    requires
        0 <= s <= e <= bs.len(),
        all_pat(bs, s, e),
        0 <= b < FREQ_BUCKETS,
    ensures
        count_block(bs, s, e, b) == if b < 10 {
            byte_count(bs, s, e, 48 + b)
        } else if b < 36 {
            byte_count(bs, s, e, 87 + b)
        } else {
            0
        },
    decreases e - s,
{
    if e > s {
        assert(is_pat_byte(bs[e - 1]));
        lemma_count_block_bytes(bs, s, e - 1, b);
    }
}

/// The sum of `count_squares` over all byte values is its sum over the digits
/// and the lowercase letters.
proof fn lemma_char_squares_split(bs: Seq<u8>, s: int, e: int)
    requires
        0 <= s <= e <= bs.len(),
        all_pat(bs, s, e),
    ensures
        char_squares(bs, s, e) == range_sum(count_squares(bs, s, e), 48, 58) + range_sum(
            count_squares(bs, s, e),
            97,
            123,
        ),
{
    let c = count_squares(bs, s, e);
    lemma_range_sum_split(c, 0, 48, 256);
    lemma_range_sum_split(c, 48, 58, 256);
    lemma_range_sum_split(c, 58, 97, 256);
    lemma_range_sum_split(c, 97, 123, 256);
    assert forall|x: int| 0 <= x < 48 || 58 <= x < 97 || 123 <= x < 256 implies #[trigger] c(x) == 0 by {
        lemma_byte_count_other(bs, s, e, x);
    }
    lemma_range_sum_zero(c, 0, 48);
    lemma_range_sum_zero(c, 58, 97);
    lemma_range_sum_zero(c, 123, 256);
}

/// On a run of PAT bytes, the character scan's sum of squared bucket counts is
/// the sum over characters of their squared counts.
pub proof fn lemma_text_squares(bs: Seq<u8>, s: int, e: int)
    requires
        0 <= s <= e <= bs.len(),
        all_pat(bs, s, e),
    ensures
        sum_squares(text_histogram(bs, s, e), PAT_CHARS as int) == char_squares(bs, s, e),
{
    let h = text_histogram(bs, s, e);
    let c = count_squares(bs, s, e);
    let f = |b: int| h[b] * h[b];
    lemma_sum_squares_range(h, f, PAT_CHARS as int);
    lemma_range_sum_split(f, 0, 26, 36);
    assert forall|x: int| 0 <= x < 26 implies #[trigger] f(x) == c(x + 97) by {
        lemma_count_text_bytes(bs, s, e, x);
    }
    lemma_range_sum_shift(f, c, 0, 26, 97);
    assert forall|x: int| 26 <= x < 36 implies #[trigger] f(x) == c(x + 22) by {
        lemma_count_text_bytes(bs, s, e, x);
    }
    lemma_range_sum_shift(f, c, 26, 36, 22);
    lemma_char_squares_split(bs, s, e);
}

/// On a run of PAT bytes, the block scan's sum of squared bucket counts is the
/// sum over characters of their squared counts: every character has a bucket
/// of its own.
pub proof fn lemma_block_squares(bs: Seq<u8>, s: int, e: int)
    requires
        0 <= s <= e <= bs.len(),
        all_pat(bs, s, e),
    ensures
        sum_squares(block_histogram(bs, s, e), FREQ_BUCKETS as int) == char_squares(bs, s, e),
{
    let h = block_histogram(bs, s, e);
    let c = count_squares(bs, s, e);
    let f = |b: int| h[b] * h[b];
    lemma_sum_squares_range(h, f, FREQ_BUCKETS as int);
    lemma_range_sum_split(f, 0, 10, 64);
    lemma_range_sum_split(f, 10, 36, 64);
    assert forall|x: int| 0 <= x < 10 implies #[trigger] f(x) == c(x + 48) by {
        lemma_count_block_bytes(bs, s, e, x);
    }
    lemma_range_sum_shift(f, c, 0, 10, 48);
    assert forall|x: int| 10 <= x < 36 implies #[trigger] f(x) == c(x + 87) by {
        lemma_count_block_bytes(bs, s, e, x);
    }
    lemma_range_sum_shift(f, c, 10, 36, 87);
    assert forall|x: int| 36 <= x < 64 implies #[trigger] f(x) == 0 by {
        lemma_count_block_bytes(bs, s, e, x);
        let y = h[x];
        assert(y * y == 0) by (nonlinear_arith)
            requires
                y == 0,
        ;
    }
    lemma_range_sum_zero(f, 36, 64);
    lemma_char_squares_split(bs, s, e);
}

/// The 52 bytes at `s` are PAT bytes that start their run, or lie a multiple
/// of 52 bytes after its start.
pub open spec fn aligned_pat_window(bs: Seq<u8>, s: int) -> bool {
    pat_span(bs, s) && (s - run_start(bs, s)) % (PAT_LEN as int) == 0
}

/// The PAT-likeness of a window in terms of characters: 2704 minus the sum,
/// over the distinct characters, of their squared counts.
pub open spec fn char_estimate(bs: Seq<u8>, s: int) -> int {
    MAX_ESTIMATE - char_squares(bs, s, s + PAT_LEN)
}

/// The character scan reports exactly the aligned PAT windows whose character
/// estimate exceeds the bound, each with that estimate, in increasing order
/// of their starts.
pub proof fn lemma_sisd_reports_exactly(bs: Seq<u8>)
    ensures
        forall|s: int|
            #[trigger] aligned_pat_window(bs, s) && char_estimate(bs, s) > SISD_ENTROPY_BOUND
                ==> sisd_found(bs).contains((s, char_estimate(bs, s))),
        forall|k: int|
            0 <= k < sisd_found(bs).len() ==> {
                let f = #[trigger] sisd_found(bs)[k];
                &&& aligned_pat_window(bs, f.0)
                &&& f.1 == char_estimate(bs, f.0)
                &&& f.1 > SISD_ENTROPY_BOUND
            },
        forall|i: int, j: int|
            0 <= i < j < sisd_found(bs).len() ==> (#[trigger] sisd_found(bs)[i]).0 < (
            #[trigger] sisd_found(bs)[j]).0,
{
    assert forall|s: int| #[trigger] aligned_pat_window(bs, s) && char_estimate(bs, s) > SISD_ENTROPY_BOUND
        implies sisd_found(bs).contains((s, char_estimate(bs, s))) by {
        lemma_text_squares(bs, s, s + PAT_LEN);
        assert(is_hit(bs, s));
        lemma_sisd_found_contains(bs, s);
    }
    lemma_hits_upto(bs, bs.len() as int);
    assert forall|k: int| 0 <= k < sisd_found(bs).len() implies {
        let f = #[trigger] sisd_found(bs)[k];
        &&& aligned_pat_window(bs, f.0)
        &&& f.1 == char_estimate(bs, f.0)
        &&& f.1 > SISD_ENTROPY_BOUND
    } by {
        let t = hits_upto(bs, bs.len() as int)[k];
        assert(is_hit(bs, t));
        lemma_text_squares(bs, t, t + PAT_LEN);
    }
    lemma_sisd_found_disjoint(bs);
}

/// Every match of the block scan is a PAT window of the line reported with its
/// character estimate, which exceeds the bound.  And a PAT window that starts
/// its run, whose character estimate exceeds the bound, is reported when the
/// first group of eight-byte blocks inside it passes the prefilter: 1600 minus
/// the sum over the distinct characters of its 40 bytes of their squared
/// counts exceeds 1500.
pub proof fn lemma_simd_reports_pat_windows(bs: Seq<u8>, p: int)
    requires
        pat_span(bs, p),
        p == 0 || !is_pat_byte(bs[p - 1]),
        char_estimate(bs, p) > SISD_ENTROPY_BOUND,
        HIGHEST_ESTIMATE - char_squares(
            bs,
            (p + 7) / 8 * MATCH_LANES,
            (p + 7) / 8 * MATCH_LANES + BLOCKS_TO_MATCH * MATCH_LANES,
        ) > SIMD_ENTROPY_BOUND,
    ensures
        forall|k: int|
            0 <= k < simd_found(bs).len() ==> {
                let f = #[trigger] simd_found(bs)[k];
                &&& pat_span(bs, f.0)
                &&& f.1 == char_estimate(bs, f.0)
                &&& f.1 > SISD_ENTROPY_BOUND
            },
        simd_found(bs).contains((p, char_estimate(bs, p))),
        exists|i: int|
            0 <= i < first_per_start(simd_found(bs)).len() && #[trigger] first_per_start(simd_found(bs))[i]
                == (p, char_estimate(bs, p)),
{
    lemma_simd_found_sound(bs);
    assert forall|k: int| 0 <= k < simd_found(bs).len() implies {
        let f = #[trigger] simd_found(bs)[k];
        &&& pat_span(bs, f.0)
        &&& f.1 == char_estimate(bs, f.0)
        &&& f.1 > SISD_ENTROPY_BOUND
    } by {
        let f = simd_found(bs)[k];
        lemma_text_squares(bs, f.0, f.0 + PAT_LEN);
    }
    let g = (p + 7) / 8;
    assert(g * 8 >= p && g * 8 <= p + 7);
    lemma_text_squares(bs, p, p + PAT_LEN);
    assert(run_start(bs, p) == p);
    assert(is_hit(bs, p));
    assert(all_pat(bs, g * 8, g * 8 + 40)) by {
        assert forall|i: int| g * 8 <= i < g * 8 + 40 implies is_pat_byte(#[trigger] bs[i]) by {
            assert(p <= i < p + PAT_LEN);
        }
    }
    lemma_block_squares(bs, g * 8, g * 8 + 40);
    assert(group_entropy(bs, g) > SIMD_ENTROPY_BOUND);
    lemma_simd_finds_run_start_hit(bs, p);
}

/// A PAT window that starts its run, whose character estimate exceeds the
/// bound, and that lies within the last 51 bytes before the incomplete last
/// block and that block, is reported by the block scan, whatever the prefilter
/// makes of the groups.
pub proof fn lemma_simd_reports_tail_pat(bs: Seq<u8>, p: int)
    requires
        pat_span(bs, p),
        p == 0 || !is_pat_byte(bs[p - 1]),
        char_estimate(bs, p) > SISD_ENTROPY_BOUND,
        p + (PAT_LEN - 1) + (bs.len() as int) % (MATCH_LANES as int) >= bs.len(),
    ensures
        simd_found(bs).contains((p, char_estimate(bs, p))),
{
    lemma_text_squares(bs, p, p + PAT_LEN);
    let rem = (bs.len() as int) % (MATCH_LANES as int);
    let t0 = if rem + PAT_LEN - 1 < bs.len() { bs.len() - (rem + PAT_LEN - 1) } else { 0 };
    assert(t0 <= p);
    lemma_next_boundary_order(bs, t0, bs.len() as int);
    assert(is_pat_byte(bs[p]));
    lemma_next_boundary_at_most(bs, t0, p);
    let ts = tail_start(bs);
    assert(0 <= ts <= p);
    let en = bs.len() as int;
    let piece = bs.subrange(ts, en);
    let q = p - ts;
    assert forall|k: int| q <= k < q + PAT_LEN implies is_pat_byte(#[trigger] piece[k]) by {
        assert(piece[k] == bs[ts + k]);
    }
    if q > 0 {
        assert(piece[q - 1] == bs[p - 1]);
    }
    assert(run_start(piece, q) == q);
    assert forall|b: int| 0 <= b < PAT_CHARS implies #[trigger] text_histogram(piece, q, q + PAT_LEN)[b]
        == text_histogram(bs, p, p + PAT_LEN)[b] by {
        lemma_count_text_shift(bs, ts, en, q, q + PAT_LEN, b);
    }
    assert(text_histogram(piece, q, q + PAT_LEN) =~= text_histogram(bs, p, p + PAT_LEN));
    assert(is_hit(piece, q));
    lemma_sisd_found_contains(piece, q);
    let x = (p, char_estimate(bs, p));
    let k = choose|k: int| 0 <= k < sisd_found(piece).len() && sisd_found(piece)[k] == hit_found(piece, q);
    assert(tail_found(bs)[k] == x);
    let fires = fires_found(bs, (bs.len() as int) / (MATCH_LANES as int));
    assert(simd_found(bs)[fires.len() + k] == x);
}

} // verus!
