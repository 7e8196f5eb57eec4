//! Scanning of UTF-16 lines (`&[u16]`) for the first PAT-like window.

use vstd::prelude::*;
use crate::blocks::{self, BLOCKS_TO_MATCH};
use crate::histogram::{
    counts_view, lemma_squares_dominate, lemma_sum_add_one, lemma_sum_positive, lemma_zero_sum,
    sum_counts, sum_squares,
};

verus! {

/// Number of characters in a PAT.
pub const PAT_LEN: u8 = 52;
/// Number of histogram buckets: ten digits and 26 lowercase letters.
pub const FREQ_BUCKETS: usize = 36;
/// The bucket that a perfectly balanced window averages to.
pub const EXPECTED_AVERAGE_CHAR: usize = 17;
/// Smallest entropy estimate that counts as PAT-like.
pub const PAT_ENTROPY_MINIMUM: usize = 8;

// ---------------------------------------------------------------------------
// Characters and histograms
// ---------------------------------------------------------------------------

/// A code unit that may occur in a PAT: `'0'..='9'` or `'a'..='z'`.
pub open spec fn is_pat_unit(c: u16) -> bool {
    (48 <= c <= 57) || (97 <= c <= 122)
}

/// The histogram bucket of a PAT code unit: digits map to 0..=9, letters to 10..=35.
pub open spec fn bucket_of(c: u16) -> int {
    if 97 <= c <= 122 {
        c - 97 + 10
    } else {
        c - 48
    }
}

/// Number of positions `k` in `[s, e)` whose code unit falls into bucket `b`.
pub open spec fn count_in(line: Seq<u16>, s: int, e: int, b: int) -> nat
    decreases e - s,
{
    if e <= s {
        0
    } else {
        count_in(line, s, e - 1, b) + if bucket_of(line[e - 1]) == b {
            1nat
        } else {
            0nat
        }
    }
}

/// The bucket histogram of the code units in `line[s..e]`.
pub open spec fn histogram(line: Seq<u16>, s: int, e: int) -> Seq<int> {
    Seq::new(FREQ_BUCKETS as nat, |b: int| count_in(line, s, e, b) as int)
}

/// Sum over the first `n` buckets of bucket index times bucket count.
pub open spec fn sum_weighted(h: Seq<int>, n: int) -> int
    decreases n,
{
    if n <= 0 {
        0
    } else {
        sum_weighted(h, n - 1) + (n - 1) * h[n - 1]
    }
}

/// The entropy estimate of a histogram: a flatness measure
/// `min(52, total)^2 / sum of squares`, minus (saturating) the distance of
/// the average bucket from the middle bucket.
pub open spec fn entropy_of(h: Seq<int>) -> int {
    let total = sum_counts(h, FREQ_BUCKETS as int);
    let squares = sum_squares(h, FREQ_BUCKETS as int);
    let weighted = sum_weighted(h, FREQ_BUCKETS as int);
    let m = if total < PAT_LEN { total } else { PAT_LEN as int };
    let normalized = (m * m) / squares;
    let average = weighted / total;
    let lopsidedness = if average >= EXPECTED_AVERAGE_CHAR {
        average - EXPECTED_AVERAGE_CHAR
    } else {
        EXPECTED_AVERAGE_CHAR - average
    };
    if normalized >= lopsidedness {
        normalized - lopsidedness
    } else {
        0
    }
}

/// Maps a code unit to its histogram bucket, or `None` when it cannot be part of a PAT.
fn pat_char_index(c: u16) -> (r: Option<u8>)
    ensures
        match r {
            Some(i) => is_pat_unit(c) && i == bucket_of(c),
            None => !is_pat_unit(c),
        },
{
    if 97 <= c && c <= 122 {
        Some((c - 97 + 10) as u8)
    } else if 48 <= c && c <= 57 {
        Some((c - 48) as u8)
    } else {
        None
    }
}

/// The entropy estimate of a bucket histogram; see [`entropy_of`].
fn approx_entropy(char_counts: &[u8; FREQ_BUCKETS]) -> (r: usize)
    requires
        sum_counts(counts_view(*char_counts), FREQ_BUCKETS as int) > 0,
    ensures
        r == entropy_of(counts_view(*char_counts)),
{
    let ghost h = counts_view(*char_counts);
    let mut total_count: usize = 0;
    let mut weighted_total: usize = 0;
    let mut sum_squared: usize = 0;
    let mut ch: usize = 0;
    while ch < FREQ_BUCKETS
        invariant
            0 <= ch <= FREQ_BUCKETS,
            h == counts_view(*char_counts),
            total_count == sum_counts(h, ch as int),
            sum_squared == sum_squares(h, ch as int),
            weighted_total == sum_weighted(h, ch as int),
            total_count <= 255 * ch,
            sum_squared <= 65025 * ch,
            weighted_total <= 8925 * ch,
        decreases FREQ_BUCKETS - ch,
    {
        let count = char_counts[ch] as usize;
        assert(h[ch as int] == count);
        assert(count * count <= 65025) by (nonlinear_arith)
            requires
                count <= 255,
        ;
        assert(ch * count <= 35 * 255) by (nonlinear_arith)
            requires
                count <= 255,
                ch < 36,
        ;
        let weight = ch * count;
        assert(weighted_total + weight <= 8925 * (ch + 1));
        total_count += count;
        sum_squared += count * count;
        weighted_total += weight;
        ch += 1;
    }
    proof {
        lemma_squares_dominate(h, FREQ_BUCKETS as int);
    }
    let max = if (PAT_LEN as usize) < total_count { PAT_LEN as usize } else { total_count };
    assert(max * max <= 2704) by (nonlinear_arith)
        requires
            max <= 52,
    ;
    let max = max * max;
    let normalized = max / sum_squared;
    let average_char = weighted_total / total_count;
    let lopsidedness = if average_char >= EXPECTED_AVERAGE_CHAR {
        average_char - EXPECTED_AVERAGE_CHAR
    } else {
        EXPECTED_AVERAGE_CHAR - average_char
    };
    let merged = normalized.saturating_sub(lopsidedness);
    merged
}


// ---------------------------------------------------------------------------
// Windows and hits
// ---------------------------------------------------------------------------

/// Start of the maximal run of PAT code units that ends just before position `p`
/// (`p` itself when `line[p - 1]` is not a PAT code unit).
pub open spec fn run_start(line: Seq<u16>, p: int) -> int
    decreases p,
{
    if p <= 0 || !is_pat_unit(line[p - 1]) {
        p
    } else {
        run_start(line, p - 1)
    }
}

/// Every code unit of `line[s..e]` may occur in a PAT.
pub open spec fn all_pat(line: Seq<u16>, s: int, e: int) -> bool {
    forall|k: int| s <= k < e ==> is_pat_unit(#[trigger] line[k])
}

/// The 52 code units starting at `s` lie within `line` and may all occur in a PAT.
pub open spec fn pat_span(line: Seq<u16>, s: int) -> bool {
    0 <= s && s + PAT_LEN <= line.len() && all_pat(line, s, s + PAT_LEN)
}

/// `line[s..s + 52]` is a window that the scan inspects: it consists of PAT code
/// units and starts a multiple of 52 units after the start of its run.
pub open spec fn is_window(line: Seq<u16>, s: int) -> bool {
    &&& 0 <= s
    &&& s + PAT_LEN <= line.len()
    &&& all_pat(line, s, s + PAT_LEN)
    &&& (s - run_start(line, s)) % (PAT_LEN as int) == 0
}

/// The entropy estimate of the 52 code units starting at `s`.
pub open spec fn window_entropy(line: Seq<u16>, s: int) -> int {
    entropy_of(histogram(line, s, s + PAT_LEN))
}

/// `line[s..s + 52]` is an inspected window whose entropy is high enough to be a PAT.
pub open spec fn is_hit(line: Seq<u16>, s: int) -> bool {
    is_window(line, s) && window_entropy(line, s) >= PAT_ENTROPY_MINIMUM
}

/// The smallest hit position that is at least `s`, if any.
pub open spec fn first_hit_from(line: Seq<u16>, s: int) -> Option<int>
    decreases line.len() - s,
{
    if s < 0 || s + PAT_LEN > line.len() {
        None
    } else if is_hit(line, s) {
        Some(s)
    } else {
        first_hit_from(line, s + 1)
    }
}

/// The position of the first hit of `line`, if any.
pub open spec fn first_hit(line: Seq<u16>) -> Option<int> {
    first_hit_from(line, 0)
}

proof fn lemma_first_hit_from(line: Seq<u16>, s: int)
    requires
        0 <= s,
    ensures
        first_hit_from(line, s) matches Some(h) ==> s <= h && is_hit(line, h) && forall|t: int|
            s <= t < h ==> !is_hit(line, t),
        first_hit_from(line, s) is None ==> forall|t: int| s <= t ==> !is_hit(line, t),
    decreases line.len() - s,
{
    if s + PAT_LEN <= line.len() && !is_hit(line, s) {
        lemma_first_hit_from(line, s + 1);
    }
}

/// `first_hit` is the least hit position, and `None` exactly when there is no hit.
pub proof fn lemma_first_hit(line: Seq<u16>)
    ensures
        first_hit(line) matches Some(h) ==> is_hit(line, h) && forall|t: int| t < h ==> !is_hit(line, t),
        first_hit(line) is None <==> forall|t: int| !is_hit(line, t),
{
    lemma_first_hit_from(line, 0);
    if let Some(h) = first_hit(line) {
        assert(is_hit(line, h));
    }
}

proof fn lemma_run_start(line: Seq<u16>, p: int)
    requires
        0 <= p <= line.len(),
    ensures
        0 <= run_start(line, p) <= p,
        all_pat(line, run_start(line, p), p),
        run_start(line, p) == 0 || !is_pat_unit(line[run_start(line, p) - 1]),
    decreases p,
{
    if p > 0 && is_pat_unit(line[p - 1]) {
        lemma_run_start(line, p - 1);
    }
}

proof fn lemma_run_start_same(line: Seq<u16>, s: int, p: int)
    requires
        0 <= s <= p <= line.len(),
        run_start(line, p) <= s,
    ensures
        run_start(line, s) == run_start(line, p),
    decreases p - s,
{
    if s < p {
        lemma_run_start(line, p);
        assert(is_pat_unit(line[p - 1]));
        lemma_run_start_same(line, s, p - 1);
    }
}

/// Between two aligned window starts of a run there is no other window.
proof fn lemma_no_window_between(line: Seq<u16>, s: int, ps: int, p: int)
    requires
        0 <= s,
        s + PAT_LEN <= p <= line.len(),
        run_start(line, p) <= ps,
        (ps - run_start(line, p)) % (PAT_LEN as int) == 0,
        s < ps < s + PAT_LEN,
    ensures
        !is_window(line, s),
{
    lemma_run_start(line, p);
    let r = run_start(line, p);
    if s < r {
        assert(!is_pat_unit(line[r - 1]));
    } else {
        lemma_run_start_same(line, s, p);
    }
}

proof fn lemma_count_bound(line: Seq<u16>, s: int, e: int, b: int)
    ensures
        count_in(line, s, e, b) <= if e >= s { e - s } else { 0 },
    decreases e - s,
{
    if e > s {
        lemma_count_bound(line, s, e - 1, b);
    }
}

/// Scans `line` one code unit at a time and returns the first hit (see [`is_hit`]):
/// its start, the 52 code units of the window, and the window's entropy estimate.
pub fn sisd(line: &[u16]) -> (r: Option<(usize, &[u16], usize)>)
    ensures
        match r {
            None => forall|s: int| !is_hit(line@, s),
            Some((st, sub, e)) => {
                &&& is_hit(line@, st as int)
                &&& forall|t: int| t < st ==> !is_hit(line@, t)
                &&& sub@ == line@.subrange(st as int, st + PAT_LEN)
                &&& e == window_entropy(line@, st as int)
            },
        },
{
    let mut possible_start_index: usize = 0;
    let mut confirmed_length: u8 = 0;
    let mut char_counts = [0u8; FREQ_BUCKETS];
    let mut i: usize = 0;
    while i < line.len()
        invariant
            0 <= i <= line.len(),
            possible_start_index + confirmed_length == i,
            confirmed_length < PAT_LEN,
            run_start(line@, i as int) <= possible_start_index,
            (possible_start_index - run_start(line@, i as int)) % (PAT_LEN as int) == 0,
            forall|b: int|
                0 <= b < FREQ_BUCKETS ==> #[trigger] char_counts[b] == count_in(
                    line@,
                    possible_start_index as int,
                    i as int,
                    b,
                ),
            forall|s: int| s + PAT_LEN <= i ==> !is_hit(line@, s),
        decreases line.len() - i,
    {
        let c = line[i];
        proof {
            lemma_run_start(line@, i as int);
        }
        if let Some(pat_char_index) = pat_char_index(c) {
            let ghost old_counts = char_counts;
            proof {
                lemma_count_bound(line@, possible_start_index as int, i as int, pat_char_index as int);
            }
            char_counts[pat_char_index as usize] += 1;
            confirmed_length += 1;
            assert forall|b: int| 0 <= b < FREQ_BUCKETS implies #[trigger] char_counts[b] == count_in(
                line@,
                possible_start_index as int,
                i + 1,
                b,
            ) by {
                assert(old_counts[b] == count_in(line@, possible_start_index as int, i as int, b));
            }
            assert(run_start(line@, i + 1) == run_start(line@, i as int));
            if confirmed_length < PAT_LEN {
                assert forall|s: int| s + PAT_LEN <= i + 1 implies !is_hit(line@, s) by {
                    if s + PAT_LEN == i + 1 && 0 <= s {
                        lemma_no_window_between(line@, s, possible_start_index as int, i + 1);
                    }
                }
                i += 1;
                continue;
            }
            let ghost ps = possible_start_index as int;
            proof {
                lemma_run_start(line@, i + 1);
                lemma_run_start_same(line@, ps, i + 1);
                assert(counts_view(char_counts) =~= histogram(line@, ps, ps + PAT_LEN));
                assert(char_counts[pat_char_index as int] > 0);
                assert forall|k: int| 0 <= k < FREQ_BUCKETS implies 0 <= #[trigger] counts_view(char_counts)[k] by {}
                lemma_sum_positive(counts_view(char_counts), FREQ_BUCKETS as int, pat_char_index as int);
            }
            let entropy = approx_entropy(&char_counts);
            if entropy >= PAT_ENTROPY_MINIMUM {
                let start_index = possible_start_index;
                let end_index = possible_start_index + PAT_LEN as usize;
                let substr = &line[start_index..end_index];
                proof {
                    assert(is_hit(line@, ps));
                    lemma_first_hit(line@);
                }
                return Some((start_index, substr, entropy));
            }
            possible_start_index += confirmed_length as usize;
        } else {
            possible_start_index = i + 1;
        }
        if confirmed_length > 0 {
            char_counts = [0u8; FREQ_BUCKETS];
        }
        confirmed_length = 0;
        i += 1;
    }
    proof {
        lemma_first_hit(line@);
    }
    None
}

// ---------------------------------------------------------------------------
// Block prefilter
// ---------------------------------------------------------------------------

/// Number of code units in a block.
pub const MATCH_LANES: usize = 8;

/// Block `b` (code units `8b..8b + 8`) lies within `line` and holds only PAT code units.
pub open spec fn block_pat(line: Seq<u16>, b: int) -> bool {
    &&& 0 <= b
    &&& (b + 1) * MATCH_LANES <= line.len()
    &&& all_pat(line, b * MATCH_LANES, b * MATCH_LANES + MATCH_LANES)
}

/// Which blocks of `line` are PAT blocks.
pub open spec fn block_marks(line: Seq<u16>) -> spec_fn(int) -> bool {
    |b: int| block_pat(line, b)
}

/// Group `g` of `line` is inspected by the prefilter (see [`blocks::is_group`]).
pub open spec fn is_group(line: Seq<u16>, g: int) -> bool {
    blocks::is_group(block_marks(line), g)
}

/// The entropy estimate of the 40 code units of group `g`.
pub open spec fn group_entropy(line: Seq<u16>, g: int) -> int {
    entropy_of(histogram(line, g * MATCH_LANES, (g + BLOCKS_TO_MATCH) * MATCH_LANES))
}

/// Group `g` passes the prefilter.
pub open spec fn group_fires(line: Seq<u16>, g: int) -> bool {
    is_group(line, g) && group_entropy(line, g) >= PAT_ENTROPY_MINIMUM
}

/// The part of `line` that is rescanned when group `g` passes the prefilter, as
/// `(start, end)`: from one block before the group, 104 code units or up to the end.
pub open spec fn region(line: Seq<u16>, g: int) -> (int, int) {
    let st = (if g > 1 { g } else { 1 } - 1) * MATCH_LANES;
    let en = if st + 2 * PAT_LEN < line.len() { st + 2 * PAT_LEN } else { line.len() as int };
    (st, en)
}

/// The first hit of the region of group `g`, as a position in `line`.
pub open spec fn region_hit(line: Seq<u16>, g: int) -> Option<int> {
    let (st, en) = region(line, g);
    match first_hit(line.subrange(st, en)) {
        Some(h) => Some(st + h),
        None => None,
    }
}

/// Group `g` passes the prefilter and its region holds a hit.
pub open spec fn group_finds(line: Seq<u16>, g: int) -> bool {
    group_fires(line, g) && region_hit(line, g) is Some
}

/// The hit found through the first group at or after `g` that passes the
/// prefilter and whose region holds a hit, if any.
pub open spec fn groups_find_from(line: Seq<u16>, g: int) -> Option<int>
    decreases line.len() - g,
{
    if g < 0 || (g + BLOCKS_TO_MATCH) * MATCH_LANES > line.len() {
        None
    } else if group_finds(line, g) {
        region_hit(line, g)
    } else {
        groups_find_from(line, g + 1)
    }
}

/// Start of the tail scanned when no group finds a hit: the incomplete last
/// block and the 51 code units before it.
pub open spec fn tail_start(line: Seq<u16>) -> int {
    let rem = (line.len() as int) % (MATCH_LANES as int);
    if rem + PAT_LEN - 1 < line.len() {
        line.len() - (rem + PAT_LEN - 1)
    } else {
        0
    }
}

/// What [`simd`] finds: the hit found through the groups, or else the first hit
/// of the tail, as a position in `line`.
pub open spec fn simd_hit(line: Seq<u16>) -> Option<int> {
    match groups_find_from(line, 0) {
        Some(p) => Some(p),
        None => {
            let ts = tail_start(line);
            match first_hit(line.subrange(ts, line.len() as int)) {
                Some(h) => Some(ts + h),
                None => None,
            }
        },
    }
}

proof fn lemma_groups_find_from(line: Seq<u16>, g: int)
    requires
        0 <= g,
    ensures
        groups_find_from(line, g) is None ==> forall|t: int| g <= t ==> !group_finds(line, t),
        (exists|f: int| g <= f && group_finds(line, f) && (forall|t: int| g <= t < f ==> !group_finds(line, t))
            && groups_find_from(line, g) == region_hit(line, f)) || groups_find_from(line, g) is None,
    decreases line.len() - g,
{
    if (g + BLOCKS_TO_MATCH) * MATCH_LANES <= line.len() && !group_finds(line, g) {
        lemma_groups_find_from(line, g + 1);
    } else if (g + BLOCKS_TO_MATCH) * MATCH_LANES > line.len() {
        assert forall|t: int| g <= t implies !group_finds(line, t) by {
            if group_finds(line, t) {
                assert(block_marks(line)(t + 4));
            }
        }
    }
}

/// When group `f` is the first that finds a hit, it decides what the groups find.
proof fn lemma_groups_find_first(line: Seq<u16>, f: int)
    requires
        0 <= f,
        group_finds(line, f),
        forall|t: int| 0 <= t < f ==> !group_finds(line, t),
    ensures
        groups_find_from(line, 0) == region_hit(line, f),
{
    lemma_groups_find_from(line, 0);
    if groups_find_from(line, 0) is None {
    } else {
        let f2 = choose|f2: int| 0 <= f2 && group_finds(line, f2) && (forall|t: int| 0 <= t < f2 ==> !group_finds(line, t))
            && groups_find_from(line, 0) == region_hit(line, f2);
        assert(f2 == f);
    }
}

proof fn lemma_count_shift(line: Seq<u16>, st: int, en: int, s: int, e: int, b: int)
    requires
        0 <= st <= en <= line.len(),
        0 <= s <= e <= en - st,
    ensures
        count_in(line.subrange(st, en), s, e, b) == count_in(line, st + s, st + e, b),
    decreases e - s,
{
    if s < e {
        lemma_count_shift(line, st, en, s, e - 1, b);
    }
}

/// The histogram of a non-empty run of PAT code units has a positive bucket.
proof fn lemma_count_positive(line: Seq<u16>, s: int, e: int)
    requires
        0 <= s < e <= line.len(),
        is_pat_unit(line[s]),
    ensures
        count_in(line, s, e, bucket_of(line[s])) > 0,
    decreases e - s,
{
    if e - 1 > s {
        lemma_count_positive(line, s, e - 1);
    }
}

/// Every code unit of `line[8j..8j + 8]` is a PAT code unit.
fn block_all_pat(line: &[u16], j: usize) -> (r: bool)
    requires
        (j + 1) * MATCH_LANES <= line.len(),
    ensures
        r == all_pat(line@, j * MATCH_LANES, j * MATCH_LANES + MATCH_LANES),
{
    let base = j * MATCH_LANES;
    let mut k: usize = 0;
    while k < MATCH_LANES
        invariant
            base == j * MATCH_LANES,
            (j + 1) * MATCH_LANES <= line.len(),
            0 <= k <= MATCH_LANES,
            all_pat(line@, base as int, base + k),
        decreases MATCH_LANES - k,
    {
        let c = line[base + k];
        let number = 48 <= c && c <= 57;
        let lowercase = 97 <= c && c <= 122;
        if !(number || lowercase) {
            return false;
        }
        k += 1;
    }
    true
}


/// Shifts a [`sisd`] result found in `line[start..end]` back to positions of `line`.
fn shift_found<'a>(
    line: &'a [u16],
    start: usize,
    end: usize,
    found: Option<(usize, &'a [u16], usize)>,
) -> (r: Option<(usize, &'a [u16], usize)>)
    requires
        start <= end <= line@.len(),
        match found {
            None => forall|s: int| !is_hit(line@.subrange(start as int, end as int), s),
            Some((st, sub, e)) => {
                &&& is_hit(line@.subrange(start as int, end as int), st as int)
                &&& forall|t: int| t < st ==> !is_hit(line@.subrange(start as int, end as int), t)
                &&& sub@ == line@.subrange(start as int, end as int).subrange(st as int, st + PAT_LEN)
                &&& e == window_entropy(line@.subrange(start as int, end as int), st as int)
            },
        },
    ensures
        match r {
            None => first_hit(line@.subrange(start as int, end as int)) is None,
            Some((pos, sub, e)) => {
                &&& first_hit(line@.subrange(start as int, end as int)) == Some(pos - start)
                &&& sub@ == line@.subrange(pos as int, pos + PAT_LEN)
                &&& e == window_entropy(line@, pos as int)
                &&& all_pat(line@, pos as int, pos + PAT_LEN)
                &&& e >= PAT_ENTROPY_MINIMUM
            },
        },
{
    let ghost region = line@.subrange(start as int, end as int);
    proof {
        lemma_first_hit(region);
    }
    match found {
        None => None,
        Some((i, sub, e)) => {
            proof {
                assert forall|b: int| 0 <= b < FREQ_BUCKETS implies #[trigger] histogram(region, i as int, i + PAT_LEN)[b]
                    == histogram(line@, start + i, start + i + PAT_LEN)[b] by {
                    lemma_count_shift(line@, start as int, end as int, i as int, i + PAT_LEN, b);
                }
                assert(histogram(region, i as int, i + PAT_LEN) =~= histogram(line@, start + i, start + i + PAT_LEN));
                assert forall|k: int| start + i <= k < start + i + PAT_LEN implies is_pat_unit(#[trigger] line@[k]) by {
                    assert(region[k - start] == line@[k]);
                }
                assert(sub@ =~= line@.subrange(start + i, start + i + PAT_LEN));
            }
            Some((i + start, sub, e))
        },
    }
}

proof fn lemma_region_bounds(line: Seq<u16>, g: int)
    requires
        0 <= g,
        g * MATCH_LANES <= line.len(),
    ensures
        0 <= region(line, g).0 <= region(line, g).1 <= line.len(),
        region(line, g).0 <= g * MATCH_LANES,
{
}

/// Scans `line` in aligned blocks of eight code units and hands promising
/// regions to [`sisd`].
///
/// Runs of PAT blocks are inspected in groups of five.  When a group's entropy
/// estimate reaches the minimum, [`sisd`] rescans the group's region (see
/// [`region`]); a hit found there is the result, and when there is none the
/// scan moves on to the next group.  When no group leads to a hit, the tail
/// of `line` is scanned (see [`simd_hit`]).
pub fn simd(line: &[u16]) -> (r: Option<(usize, &[u16], usize)>)
    ensures
        match r {
            None => simd_hit(line@) is None,
            Some((pos, sub, e)) => {
                &&& simd_hit(line@) == Some(pos as int)
                &&& sub@ == line@.subrange(pos as int, pos + PAT_LEN)
                &&& e == window_entropy(line@, pos as int)
                &&& all_pat(line@, pos as int, pos + PAT_LEN)
                &&& e >= PAT_ENTROPY_MINIMUM
            },
        },
{
    let len = line.len();
    let n_blocks = len / MATCH_LANES;
    let ghost bm = block_marks(line@);
    let mut confirmed_blocks: u8 = 0;
    let mut char_counts = [0u8; FREQ_BUCKETS];
    let mut j: usize = 0;
    while j < n_blocks
        invariant
            len == line@.len(),
            n_blocks == (line@.len() as int) / (MATCH_LANES as int),
            bm == block_marks(line@),
            0 <= j <= n_blocks,
            blocks::scan_state(bm, j as int, confirmed_blocks as int),
            forall|b: int|
                0 <= b < FREQ_BUCKETS ==> #[trigger] char_counts[b] == count_in(
                    line@,
                    (j - confirmed_blocks) * MATCH_LANES,
                    j * MATCH_LANES,
                    b,
                ),
            forall|g: int| g + BLOCKS_TO_MATCH <= j ==> !#[trigger] group_finds(line@, g),
        decreases n_blocks - j,
    {
        let ghost base = j - confirmed_blocks;
        assert((j + 1) * 8 <= line@.len() && j * 8 + 8 <= line@.len()) by (nonlinear_arith)
            requires
                j < n_blocks,
                n_blocks == (line@.len() as int) / 8,
        ;
        proof {
            blocks::lemma_scan_state(bm, j as int, confirmed_blocks as int);
        }
        if block_all_pat(line, j) {
            assert(bm(j as int));
            let lane_base = j * 8;
            assert(lane_base == j * MATCH_LANES);
            let mut k: usize = 0;
            while k < MATCH_LANES
                invariant
                    lane_base == j * MATCH_LANES,
                    (j + 1) * MATCH_LANES <= line@.len(),
                    0 <= k <= MATCH_LANES,
                    base * MATCH_LANES <= lane_base,
                    lane_base + MATCH_LANES - base * MATCH_LANES <= BLOCKS_TO_MATCH * MATCH_LANES,
                    all_pat(line@, j * MATCH_LANES, j * MATCH_LANES + MATCH_LANES),
                    forall|b: int|
                        0 <= b < FREQ_BUCKETS ==> #[trigger] char_counts[b] == count_in(
                            line@,
                            base * MATCH_LANES,
                            lane_base + k,
                            b,
                        ),
                decreases MATCH_LANES - k,
            {
                let c = line[lane_base + k];
                assert(is_pat_unit(line@[lane_base + k]));
                match pat_char_index(c) {
                    Some(index) => {
                        let ghost old_counts = char_counts;
                        proof {
                            lemma_count_bound(line@, base * MATCH_LANES, lane_base + k, index as int);
                        }
                        char_counts[index as usize] += 1;
                        assert forall|b: int| 0 <= b < FREQ_BUCKETS implies #[trigger] char_counts[b]
                            == count_in(line@, base * MATCH_LANES, lane_base + k + 1, b) by {
                            assert(old_counts[b] == count_in(line@, base * MATCH_LANES, lane_base + k, b));
                        }
                    },
                    None => {},
                }
                k += 1;
            }
            confirmed_blocks += 1;
            if confirmed_blocks == BLOCKS_TO_MATCH {
                let ghost g = base;
                proof {
                    blocks::lemma_step_group(bm, j as int, confirmed_blocks - 1);
                    assert(is_group(line@, g));
                    assert(counts_view(char_counts) =~= histogram(line@, g * MATCH_LANES, (g + BLOCKS_TO_MATCH) * MATCH_LANES));
                    let c0 = line@[g * MATCH_LANES];
                    assert(is_pat_unit(c0)) by {
                        assert(bm(g + 0));
                    }
                    lemma_count_positive(line@, g * MATCH_LANES, (g + BLOCKS_TO_MATCH) * MATCH_LANES);
                    assert forall|b: int| 0 <= b < FREQ_BUCKETS implies 0 <= #[trigger] counts_view(char_counts)[b] by {}
                    lemma_sum_positive(counts_view(char_counts), FREQ_BUCKETS as int, bucket_of(c0));
                }
                let entropy = approx_entropy(&char_counts);
                if entropy >= PAT_ENTROPY_MINIMUM {
                    assert(group_fires(line@, g));
                    let group_start = j + 1 - 5;
                    assert(group_start == g);
                    let first = if group_start > 1 { group_start } else { 1 };
                    let start_index = (first - 1) * 8;
                    let end_index = if len - start_index > 104 { start_index + 104 } else { len };
                    assert(start_index == region(line@, g).0 && end_index == region(line@, g).1);
                    let substr = &line[start_index..end_index];
                    let found = sisd(substr);
                    let shifted = shift_found(line, start_index, end_index, found);
                    if let Some(hit) = shifted {
                        proof {
                            assert(group_finds(line@, g));
                            assert forall|t: int| 0 <= t < g implies !group_finds(line@, t) by {
                                assert(t + BLOCKS_TO_MATCH <= j);
                            }
                            lemma_groups_find_first(line@, g);
                        }
                        return Some(hit);
                    }
                    assert(!group_finds(line@, g));
                }
                proof {
                    assert forall|t: int| t + BLOCKS_TO_MATCH <= j + 1 implies !#[trigger] group_finds(line@, t) by {
                        if t + BLOCKS_TO_MATCH <= j {
                        }
                    }
                }
            } else {
                proof {
                    blocks::lemma_step_extend(bm, j as int, confirmed_blocks - 1);
                    assert forall|g: int| g + BLOCKS_TO_MATCH <= j + 1 implies !#[trigger] group_finds(line@, g) by {
                        if g + BLOCKS_TO_MATCH == j + 1 {
                            assert(!blocks::is_group(bm, g));
                        }
                    }
                }
                j += 1;
                continue;
            }
        } else {
            proof {
                assert(!bm(j as int));
                blocks::lemma_step_break(bm, j as int, confirmed_blocks as int);
                assert forall|g: int| g + BLOCKS_TO_MATCH <= j + 1 implies !#[trigger] group_finds(line@, g) by {
                    if g + BLOCKS_TO_MATCH == j + 1 {
                        assert(!blocks::is_group(bm, g));
                    }
                }
            }
        }
        if confirmed_blocks > 0 {
            char_counts = [0u8; FREQ_BUCKETS];
        }
        confirmed_blocks = 0;
        j += 1;
    }
    proof {
        assert forall|t: int| !#[trigger] group_finds(line@, t) by {
            if group_finds(line@, t) {
                assert(bm(t + 4));
            }
        }
        lemma_groups_find_from(line@, 0);
    }
    let remainder = len - n_blocks * MATCH_LANES;
    let back = if remainder + (PAT_LEN as usize) - 1 < len {
        remainder + (PAT_LEN as usize) - 1
    } else {
        len
    };
    let start_index = len - back;
    assert(start_index == tail_start(line@));
    let substr = &line[start_index..len];
    let found = sisd(substr);
    shift_found(line, start_index, len, found)
}

// ---------------------------------------------------------------------------
// Laws
// ---------------------------------------------------------------------------

/// A piece of `line` without a hit contributes nothing: when no piece of
/// `line` holds a hit, [`simd`] finds nothing.
proof fn lemma_simd_hit_none(line: Seq<u16>)
    requires
        forall|st: int, en: int|
            0 <= st <= en <= line.len() ==> #[trigger] first_hit(line.subrange(st, en)) is None,
    ensures
        simd_hit(line) is None,
{
    assert forall|g: int| !#[trigger] group_finds(line, g) by {
        if group_finds(line, g) {
            assert(block_marks(line)(g + 4));
            lemma_region_bounds(line, g);
            let (st, en) = region(line, g);
            assert(first_hit(line.subrange(st, en)) is None);
        }
    }
    lemma_groups_find_from(line, 0);
    let ts = tail_start(line);
    assert(first_hit(line.subrange(ts, line.len() as int)) is None);
}

/// A hit of a piece of `line` lies in 52 PAT code units of `line`.
proof fn lemma_piece_hit(line: Seq<u16>, st: int, en: int, t: int)
    requires
        0 <= st <= en <= line.len(),
        is_hit(line.subrange(st, en), t),
    ensures
        pat_span(line, st + t),
{
    assert forall|k: int| st + t <= k < st + t + PAT_LEN implies is_pat_unit(#[trigger] line[k]) by {
        assert(line.subrange(st, en)[k - st] == line[k]);
    }
}

/// A line without 52 consecutive PAT code units has no match: neither
/// [`sisd`] nor [`simd`] finds anything in it.
pub proof fn lemma_no_pat_run_no_match(line: Seq<u16>)
    requires
        forall|s: int| 0 <= s && s + PAT_LEN <= line.len() ==> !#[trigger] pat_span(line, s),
    ensures
        first_hit(line) is None,
        simd_hit(line) is None,
{
    assert forall|st: int, en: int| 0 <= st <= en <= line.len() implies #[trigger] first_hit(
        line.subrange(st, en),
    ) is None by {
        let piece = line.subrange(st, en);
        lemma_first_hit(piece);
        assert forall|t: int| !is_hit(piece, t) by {
            if is_hit(piece, t) {
                lemma_piece_hit(line, st, en, t);
            }
        }
    }
    assert(line.subrange(0, line.len() as int) =~= line);
    lemma_simd_hit_none(line);
}

/// A code unit that is a lowercase hexadecimal digit: `'0'..='9'` or `'a'..='f'`.
pub open spec fn is_hex_unit(c: u16) -> bool {
    (48 <= c <= 57) || (97 <= c <= 102)
}

/// Sum over the first `n` buckets of `(u + v * b)^2`.
pub open spec fn square_sum(u: int, v: int, n: int) -> int
    decreases n,
{
    if n <= 0 {
        0
    } else {
        square_sum(u, v, n - 1) + (u + v * (n - 1)) * (u + v * (n - 1))
    }
}

/// The sum over the first `n` buckets of `(d * h[b] - u - v * b)^2` is not negative.
proof fn lemma_square_certificate(h: Seq<int>, n: int, d: int, u: int, v: int)
    requires
        0 <= n <= h.len(),
    ensures
        d * d * sum_squares(h, n) - 2 * d * u * sum_counts(h, n) - 2 * d * v * sum_weighted(h, n)
            + square_sum(u, v, n) >= 0,
    decreases n,
{
    if n > 0 {
        lemma_square_certificate(h, n - 1, d, u, v);
        let x = h[n - 1];
        let b = n - 1;
        let s = sum_squares(h, n - 1);
        let t = sum_counts(h, n - 1);
        let w = sum_weighted(h, n - 1);
        let q = square_sum(u, v, n - 1);
        let p = u + v * b;
        let y = d * x - p;
        assert(y * y >= 0) by (nonlinear_arith);
        assert(d * d * (s + x * x) == d * d * s + d * d * (x * x)) by (nonlinear_arith);
        assert(2 * d * u * (t + x) == 2 * d * u * t + 2 * d * u * x) by (nonlinear_arith);
        assert(2 * d * v * (w + b * x) == 2 * d * v * w + 2 * d * v * (b * x)) by (nonlinear_arith);
        assert(2 * d * u * x + 2 * d * v * (b * x) == 2 * d * x * p) by (nonlinear_arith)
            requires
                p == u + v * b,
        ;
        assert(y * y == d * d * (x * x) - 2 * d * x * p + p * p) by (nonlinear_arith)
            requires
                y == d * x - p,
        ;
        assert((u + v * b) * (u + v * b) == p * p);
    }
}

/// The sum of `(u + v * b)^2` over the first `n` buckets, in closed form.
proof fn lemma_square_sum_closed(u: int, v: int, n: int)
    requires
        0 <= n,
    ensures
        6 * square_sum(u, v, n) == 6 * n * u * u + 6 * u * v * n * (n - 1) + v * v * (n - 1) * n * (2 * n
            - 1),
    decreases n,
{
    if n > 0 {
        lemma_square_sum_closed(u, v, n - 1);
        let q = square_sum(u, v, n - 1);
        let p = u + v * (n - 1);
        assert(square_sum(u, v, n) == q + p * p);
        let a1 = 6 * (n - 1) * u * u;
        let a2 = 6 * u * v * (n - 1) * (n - 1 - 1);
        let a3 = v * v * (n - 1 - 1) * (n - 1) * (2 * (n - 1) - 1);
        assert(6 * q == a1 + a2 + a3);
        assert(6 * n * u * u == a1 + 6 * u * u) by (nonlinear_arith)
            requires
                a1 == 6 * (n - 1) * u * u,
        ;
        assert(6 * u * v * n * (n - 1) == a2 + 12 * u * v * (n - 1)) by (nonlinear_arith)
            requires
                a2 == 6 * u * v * (n - 1) * (n - 1 - 1),
        ;
        assert(v * v * (n - 1) * n * (2 * n - 1) == a3 + 6 * v * v * (n - 1) * (n - 1)) by (nonlinear_arith)
            requires
                a3 == v * v * (n - 1 - 1) * (n - 1) * (2 * (n - 1) - 1),
        ;
        assert(6 * (p * p) == 6 * u * u + 12 * u * v * (n - 1) + 6 * v * v * (n - 1) * (n - 1)) by (nonlinear_arith)
            requires
                p == u + v * (n - 1),
        ;
    } else {
        assert(6 * n * u * u + 6 * u * v * n * (n - 1) + v * v * (n - 1) * n * (2 * n - 1) == 0)
            by (nonlinear_arith)
            requires
                n == 0,
        ;
    }
}

/// The sum of `(u + v * b)^2` over the first 16 buckets.
proof fn lemma_square_sum_16(u: int, v: int)
    ensures
        square_sum(u, v, 16) == 16 * u * u + 240 * u * v + 1240 * v * v,
{
    lemma_square_sum_closed(u, v, 16);
    let q = square_sum(u, v, 16);
    assert(q == 16 * u * u + 240 * u * v + 1240 * v * v) by (nonlinear_arith)
        requires
            6 * q == 6 * 16 * u * u + 6 * u * v * 16 * (16 - 1) + v * v * (16 - 1) * 16 * (2 * 16 - 1),
    ;
}

/// Buckets from `m` on that hold zero change none of the sums.
proof fn lemma_sums_prefix(h: Seq<int>, m: int, n: int)
    requires
        0 <= m <= n <= h.len(),
        forall|b: int| m <= b < n ==> #[trigger] h[b] == 0,
    ensures
        sum_counts(h, n) == sum_counts(h, m),
        sum_squares(h, n) == sum_squares(h, m),
        sum_weighted(h, n) == sum_weighted(h, m),
    decreases n - m,
{
    if n > m {
        lemma_sums_prefix(h, m, n - 1);
        assert(h[n - 1] == 0);
    }
}

/// With non-negative counts, the weighted sum lies between zero and `n - 1`
/// times the total.
proof fn lemma_weighted_bounds(h: Seq<int>, n: int)
    requires
        1 <= n <= h.len(),
        forall|b: int| 0 <= b < n ==> 0 <= #[trigger] h[b],
    ensures
        0 <= sum_weighted(h, n) <= (n - 1) * sum_counts(h, n),
        0 <= sum_counts(h, n),
    decreases n,
{
    if n > 1 {
        lemma_weighted_bounds(h, n - 1);
        let x = h[n - 1];
        let t = sum_counts(h, n - 1);
        let w = sum_weighted(h, n - 1);
        assert(0 <= w + (n - 1) * x <= (n - 1) * (t + x)) by (nonlinear_arith)
            requires
                0 <= w <= (n - 2) * t,
                0 <= t,
                0 <= x,
                n >= 2,
        ;
    } else {
        assert(h[0] >= 0);
        assert(sum_weighted(h, 0) == 0);
        assert(sum_counts(h, 0) == 0);
    }
}

proof fn lemma_quotient_below(a: int, s: int, q: int)
    requires
        0 <= a,
        0 < s,
        a < s * q,
    ensures
        a / s < q,
{
    assert(a / s < q) by (nonlinear_arith)
        requires
            0 <= a,
            0 < s,
            a < s * q,
    {
        vstd::arithmetic::div_mod::lemma_fundamental_div_mod(a, s);
    }
}

/// A histogram of 52 lowercase hexadecimal digits (every bucket from 16 on is
/// empty) has an entropy estimate below the minimum.
pub proof fn lemma_hex_histogram(h: Seq<int>)
    requires
        h.len() == FREQ_BUCKETS,
        forall|b: int| 0 <= b < FREQ_BUCKETS ==> 0 <= #[trigger] h[b],
        forall|b: int| 16 <= b < FREQ_BUCKETS ==> #[trigger] h[b] == 0,
        sum_counts(h, FREQ_BUCKETS as int) == PAT_LEN,
    ensures
        entropy_of(h) < PAT_ENTROPY_MINIMUM,
{
    lemma_sums_prefix(h, 16, FREQ_BUCKETS as int);
    lemma_weighted_bounds(h, 16);
    let s = sum_squares(h, 16);
    let w = sum_weighted(h, 16);
    lemma_square_sum_16(3, 0);
    lemma_square_sum_16(0, 1);
    lemma_square_sum_16(-3, 1);
    lemma_square_sum_16(-5, 1);
    lemma_square_sum_16(-6, 1);
    lemma_square_sum_16(-7, 1);
    lemma_square_sum_16(-8, 1);
    lemma_square_certificate(h, 16, 1, 3, 0);
    lemma_square_certificate(h, 16, 3, 0, 1);
    lemma_square_certificate(h, 16, 2, -3, 1);
    lemma_square_certificate(h, 16, 2, -5, 1);
    lemma_square_certificate(h, 16, 1, -6, 1);
    lemma_square_certificate(h, 16, 1, -7, 1);
    lemma_square_certificate(h, 16, 1, -8, 1);
    assert(s - 312 + 144 >= 0);
    assert(9 * s - 6 * w + 1240 >= 0);
    assert(4 * s + 624 - 4 * w + 664 >= 0);
    assert(4 * s + 1040 - 4 * w + 440 >= 0);
    assert(s + 624 - 2 * w + 376 >= 0);
    assert(s + 728 - 2 * w + 344 >= 0);
    assert(s + 832 - 2 * w + 344 >= 0);
    assert(sum_counts(h, 16) == 52);
    assert(0 <= w <= 780);
    let a = w / 52;
    assert(0 <= a <= 15);
    assert(s * (25 - a) > 2704) by {
        if a <= 8 {
            assert(s * (25 - a) > 2704) by (nonlinear_arith)
                requires
                    s >= 168,
                    25 - a >= 17,
            ;
        } else if a == 9 {
            assert(w >= 468);
            assert(s >= 175);
            assert(s * (25 - a) > 2704) by (nonlinear_arith)
                requires
                    a == 9,
                    s >= 175,
            ;
        } else if a == 10 {
            assert(w >= 520);
            assert(s >= 198);
            assert(s * (25 - a) > 2704) by (nonlinear_arith)
                requires
                    a == 10,
                    s >= 198,
            ;
        } else if a == 11 {
            assert(w >= 572);
            assert(s >= 202);
            assert(s * (25 - a) > 2704) by (nonlinear_arith)
                requires
                    a == 11,
                    s >= 202,
            ;
        } else if a == 12 {
            assert(w >= 624);
            assert(s >= 248);
            assert(s * (25 - a) > 2704) by (nonlinear_arith)
                requires
                    a == 12,
                    s >= 248,
            ;
        } else if a == 13 {
            assert(w >= 676);
            assert(s >= 280);
            assert(s * (25 - a) > 2704) by (nonlinear_arith)
                requires
                    a == 13,
                    s >= 280,
            ;
        } else if a == 14 {
            assert(w >= 728);
            assert(s >= 280);
            assert(s * (25 - a) > 2704) by (nonlinear_arith)
                requires
                    a == 14,
                    s >= 280,
            ;
        } else {
            assert(w >= 780);
            assert(s >= 384);
            assert(s * (25 - a) > 2704) by (nonlinear_arith)
                requires
                    a == 15,
                    s >= 384,
            ;
        }
    }
    lemma_quotient_below(2704, s, 25 - a);
    assert(sum_squares(h, FREQ_BUCKETS as int) == s);
    assert(sum_weighted(h, FREQ_BUCKETS as int) == w);
    let total = sum_counts(h, FREQ_BUCKETS as int);
    let m = if total < PAT_LEN { total } else { PAT_LEN as int };
    assert(m * m == 2704) by (nonlinear_arith)
        requires
            m == 52,
    ;
    assert(entropy_of(h) < PAT_ENTROPY_MINIMUM);
}

/// `bucket_of` sends every lowercase hexadecimal digit below bucket 16, so the
/// buckets from 16 on stay empty.
proof fn lemma_count_zero(line: Seq<u16>, s: int, e: int, b: int)
    requires
        0 <= s <= e <= line.len(),
        16 <= b,
        forall|k: int| s <= k < e ==> is_hex_unit(#[trigger] line[k]),
    ensures
        count_in(line, s, e, b) == 0,
    decreases e - s,
{
    if e > s {
        assert(is_hex_unit(line[e - 1]));
        lemma_count_zero(line, s, e - 1, b);
    }
}

/// The histogram of a run of PAT code units counts each of them once.
proof fn lemma_histogram_total(line: Seq<u16>, s: int, e: int)
    requires
        0 <= s <= e <= line.len(),
        all_pat(line, s, e),
    ensures
        sum_counts(histogram(line, s, e), FREQ_BUCKETS as int) == e - s,
    decreases e - s,
{
    if e == s {
        lemma_zero_sum(histogram(line, s, e), FREQ_BUCKETS as int);
    } else {
        lemma_histogram_total(line, s, e - 1);
        assert(is_pat_unit(line[e - 1]));
        lemma_sum_add_one(
            histogram(line, s, e - 1),
            histogram(line, s, e),
            FREQ_BUCKETS as int,
            bucket_of(line[e - 1]),
        );
    }
}

/// A window of 52 lowercase hexadecimal digits never reaches the minimum
/// entropy, so neither scan reports it.
pub proof fn lemma_hex_window_not_pat(line: Seq<u16>, s: int)
    requires
        0 <= s,
        s + PAT_LEN <= line.len(),
        forall|k: int| s <= k < s + PAT_LEN ==> is_hex_unit(#[trigger] line[k]),
    ensures
        window_entropy(line, s) < PAT_ENTROPY_MINIMUM,
        !is_hit(line, s),
{
    let h = histogram(line, s, s + PAT_LEN);
    assert forall|b: int| 16 <= b < FREQ_BUCKETS implies #[trigger] h[b] == 0 by {
        lemma_count_zero(line, s, s + PAT_LEN, b);
    }
    assert(all_pat(line, s, s + PAT_LEN)) by {
        assert forall|k: int| s <= k < s + PAT_LEN implies is_pat_unit(#[trigger] line[k]) by {
            assert(is_hex_unit(line[k]));
        }
    }
    lemma_histogram_total(line, s, s + PAT_LEN);
    lemma_hex_histogram(h);
}

/// A line of lowercase hexadecimal digits has no match: neither [`sisd`] nor
/// [`simd`] finds anything in it.
pub proof fn lemma_hex_line_no_match(line: Seq<u16>)
    requires
        forall|k: int| 0 <= k < line.len() ==> is_hex_unit(#[trigger] line[k]),
    ensures
        first_hit(line) is None,
        simd_hit(line) is None,
{
    assert forall|st: int, en: int| 0 <= st <= en <= line.len() implies #[trigger] first_hit(
        line.subrange(st, en),
    ) is None by {
        let piece = line.subrange(st, en);
        lemma_first_hit(piece);
        assert forall|t: int| !is_hit(piece, t) by {
            if is_hit(piece, t) {
                assert forall|k: int| t <= k < t + PAT_LEN implies is_hex_unit(#[trigger] piece[k]) by {
                    assert(piece[k] == line[st + k]);
                }
                lemma_hex_window_not_pat(piece, t);
            }
        }
    }
    assert(line.subrange(0, line.len() as int) =~= line);
    lemma_simd_hit_none(line);
}

/// Scaling every count by `k` scales the total and the weighted sum by `k`
/// and the sum of squares by `k * k`.
proof fn lemma_sums_scale(h: Seq<int>, h2: Seq<int>, k: int, n: int)
    requires
        0 <= n <= h.len(),
        n <= h2.len(),
        forall|b: int| 0 <= b < n ==> #[trigger] h2[b] == k * h[b],
    ensures
        sum_counts(h2, n) == k * sum_counts(h, n),
        sum_squares(h2, n) == k * k * sum_squares(h, n),
        sum_weighted(h2, n) == k * sum_weighted(h, n),
    decreases n,
{
    if n > 0 {
        lemma_sums_scale(h, h2, k, n - 1);
        let x = h[n - 1];
        let b = n - 1;
        assert(h2[n - 1] == k * x);
        let t = sum_counts(h, n - 1);
        let s = sum_squares(h, n - 1);
        let w = sum_weighted(h, n - 1);
        assert(k * t + k * x == k * (t + x)) by (nonlinear_arith);
        assert(k * k * s + (k * x) * (k * x) == k * k * (s + x * x)) by (nonlinear_arith);
        assert(k * w + b * (k * x) == k * (w + b * x)) by (nonlinear_arith);
    }
}

/// Scaling every count of a histogram by `k` leaves its entropy estimate
/// unchanged, as long as the scaled total is at most 52: both the flatness
/// and the average bucket stay the same.
pub proof fn lemma_entropy_scaling(h: Seq<int>, h2: Seq<int>, k: int)
    requires
        h.len() == FREQ_BUCKETS,
        h2.len() == FREQ_BUCKETS,
        forall|b: int| 0 <= b < FREQ_BUCKETS ==> 0 <= #[trigger] h[b],
        forall|b: int| 0 <= b < FREQ_BUCKETS ==> #[trigger] h2[b] == k * h[b],
        k >= 1,
        sum_counts(h, FREQ_BUCKETS as int) > 0,
        k * sum_counts(h, FREQ_BUCKETS as int) <= PAT_LEN,
    ensures
        entropy_of(h2) == entropy_of(h),
{
    let n = FREQ_BUCKETS as int;
    lemma_sums_scale(h, h2, k, n);
    lemma_squares_dominate(h, n);
    lemma_weighted_bounds(h, n);
    let t = sum_counts(h, n);
    let s = sum_squares(h, n);
    let w = sum_weighted(h, n);
    assert(t <= k * t) by (nonlinear_arith)
        requires
            t > 0,
            k >= 1,
    ;
    assert((k * t) * (k * t) == (k * k) * (t * t)) by (nonlinear_arith);
    assert(k * k > 0) by (nonlinear_arith)
        requires
            k >= 1,
    ;
    assert(t * t >= 0) by (nonlinear_arith);
    vstd::arithmetic::div_mod::lemma_div_multiples_vanish_quotient(k * k, t * t, s);
    vstd::arithmetic::div_mod::lemma_div_multiples_vanish_quotient(k, w, t);
}

/// The first block that lies wholly at or after position `p`.
pub open spec fn first_block_from(p: int) -> int {
    (p + MATCH_LANES - 1) / (MATCH_LANES as int)
}

/// A hit that starts its run of PAT code units (at the start of the line or
/// after a code unit that cannot occur in a PAT) is what [`simd`] finds when
/// the prefilter passes on the first group of blocks inside it and no earlier
/// group has led to a hit.
pub proof fn lemma_simd_finds_run_start_hit(line: Seq<u16>, p: int)
    requires
        is_hit(line, p),
        p == 0 || !is_pat_unit(line[p - 1]),
        group_entropy(line, first_block_from(p)) >= PAT_ENTROPY_MINIMUM,
        forall|t: int| 0 <= t < first_block_from(p) ==> !#[trigger] group_finds(line, t),
    ensures
        simd_hit(line) == Some(p),
{
    let g = first_block_from(p);
    let bm = block_marks(line);
    assert(g * 8 >= p && g * 8 <= p + 7);
    assert forall|k: int| 0 <= k < BLOCKS_TO_MATCH implies #[trigger] bm(g + k) by {
        assert forall|i: int| (g + k) * MATCH_LANES <= i < (g + k) * MATCH_LANES + MATCH_LANES implies is_pat_unit(
            #[trigger] line[i],
        ) by {
            assert(p <= i < p + PAT_LEN);
        }
    }
    if g > 0 {
        assert(!bm(g - 1)) by {
            assert((g - 1) * 8 <= p - 1 < (g - 1) * 8 + 8);
        }
    }
    assert(blocks::block_run_start(bm, g) == g);
    assert(blocks::all_blocks(bm, g, BLOCKS_TO_MATCH as int));
    assert(group_fires(line, g));
    let (st, en) = region(line, g);
    assert(st <= p && p - st <= 8 && p + PAT_LEN <= en <= line.len());
    let piece = line.subrange(st, en);
    let q = p - st;
    assert forall|k: int| q <= k < q + PAT_LEN implies is_pat_unit(#[trigger] piece[k]) by {
        assert(piece[k] == line[st + k]);
    }
    if q > 0 {
        assert(piece[q - 1] == line[p - 1]);
    }
    assert(run_start(piece, q) == q);
    assert forall|b: int| 0 <= b < FREQ_BUCKETS implies #[trigger] histogram(piece, q, q + PAT_LEN)[b]
        == histogram(line, p, p + PAT_LEN)[b] by {
        lemma_count_shift(line, st, en, q, q + PAT_LEN, b);
    }
    assert(histogram(piece, q, q + PAT_LEN) =~= histogram(line, p, p + PAT_LEN));
    assert(is_hit(piece, q));
    assert forall|t: int| t < q implies !is_hit(piece, t) by {
        if is_hit(piece, t) {
            assert(is_pat_unit(piece[q - 1]));
        }
    }
    lemma_first_hit(piece);
    assert(first_hit(piece) == Some(q));
    assert(group_finds(line, g));
    lemma_groups_find_first(line, g);
}

// ---------------------------------------------------------------------------
// The estimates in terms of characters
// ---------------------------------------------------------------------------

/// The PAT character counted in bucket `b`: the digits for 0..=9, then the
/// lowercase letters for 10..=35.
pub open spec fn bucket_unit(b: int) -> int {
    if b < 10 {
        48 + b
    } else {
        87 + b
    }
}

/// Number of code units of `line[s..e]` equal to `c`.
pub open spec fn unit_count(line: Seq<u16>, s: int, e: int, c: int) -> int
    decreases e - s,
{
    if e <= s {
        0
    } else {
        unit_count(line, s, e - 1, c) + if line[e - 1] == c {
            1int
        } else {
            0int
        }
    }
}

/// How often each PAT character occurs in `line[s..e]`, digits first, then
/// the lowercase letters.
pub open spec fn char_histogram(line: Seq<u16>, s: int, e: int) -> Seq<int> {
    Seq::new(FREQ_BUCKETS as nat, |b: int| unit_count(line, s, e, bucket_unit(b)))
}

proof fn lemma_count_in_units(line: Seq<u16>, s: int, e: int, b: int)
    requires
        0 <= s <= e <= line.len(),
        all_pat(line, s, e),
        0 <= b < FREQ_BUCKETS,
    ensures
        count_in(line, s, e, b) == unit_count(line, s, e, bucket_unit(b)),
    decreases e - s,
{
    if e > s {
        assert(is_pat_unit(line[e - 1]));
        lemma_count_in_units(line, s, e - 1, b);
    }
}

/// On a run of PAT code units, the scans' histogram counts each PAT character
/// in a bucket of its own.
pub proof fn lemma_histogram_chars(line: Seq<u16>, s: int, e: int)
    requires
        0 <= s <= e <= line.len(),
        all_pat(line, s, e),
    ensures
        histogram(line, s, e) == char_histogram(line, s, e),
{
    assert forall|b: int| 0 <= b < FREQ_BUCKETS implies #[trigger] histogram(line, s, e)[b] == char_histogram(
        line,
        s,
        e,
    )[b] by {
        lemma_count_in_units(line, s, e, b);
    }
    assert(histogram(line, s, e) =~= char_histogram(line, s, e));
}

/// The 52 code units at `s` are PAT units that start their run, or lie a
/// multiple of 52 units after its start.
pub open spec fn aligned_pat_window(line: Seq<u16>, s: int) -> bool {
    pat_span(line, s) && (s - run_start(line, s)) % (PAT_LEN as int) == 0
}

/// What [`sisd`] looks for: a hit is exactly an aligned PAT window whose
/// character histogram has an entropy estimate of at least the minimum, and
/// the entropy [`sisd`] reports for it is that estimate.
pub proof fn lemma_hit_is_pat_window(line: Seq<u16>, s: int)
    ensures
        is_hit(line, s) <==> aligned_pat_window(line, s) && entropy_of(char_histogram(line, s, s + PAT_LEN))
            >= PAT_ENTROPY_MINIMUM,
        pat_span(line, s) ==> window_entropy(line, s) == entropy_of(char_histogram(line, s, s + PAT_LEN)),
{
    if pat_span(line, s) {
        lemma_histogram_chars(line, s, s + PAT_LEN);
    }
}

/// The first aligned PAT window that starts its run, has an entropy estimate
/// of at least the minimum, and has no 40 consecutive PAT code units before
/// it, is what [`simd`] finds, when the entropy estimate of the character
/// histogram of the first group of blocks inside it reaches the minimum too.
pub proof fn lemma_simd_finds_first_pat(line: Seq<u16>, p: int)
    requires
        pat_span(line, p),
        p == 0 || !is_pat_unit(line[p - 1]),
        entropy_of(char_histogram(line, p, p + PAT_LEN)) >= PAT_ENTROPY_MINIMUM,
        entropy_of(
            char_histogram(
                line,
                first_block_from(p) * MATCH_LANES,
                first_block_from(p) * MATCH_LANES + BLOCKS_TO_MATCH * MATCH_LANES,
            ),
        ) >= PAT_ENTROPY_MINIMUM,
        forall|s: int| 0 <= s && s + BLOCKS_TO_MATCH * MATCH_LANES <= p ==> !#[trigger] all_pat(line, s, s + 40),
    ensures
        simd_hit(line) == Some(p),
{
    let g = first_block_from(p);
    assert(g * 8 >= p && g * 8 <= p + 7);
    lemma_histogram_chars(line, p, p + PAT_LEN);
    assert(run_start(line, p) == p);
    assert(is_hit(line, p));
    assert(all_pat(line, g * 8, g * 8 + 40)) by {
        assert forall|i: int| g * 8 <= i < g * 8 + 40 implies is_pat_unit(#[trigger] line[i]) by {
            assert(p <= i < p + PAT_LEN);
        }
    }
    lemma_histogram_chars(line, g * 8, g * 8 + 40);
    assert(group_entropy(line, g) >= PAT_ENTROPY_MINIMUM);
    let bm = block_marks(line);
    assert forall|t: int| 0 <= t < g implies !#[trigger] group_finds(line, t) by {
        if group_finds(line, t) {
            assert(blocks::all_blocks(bm, t, BLOCKS_TO_MATCH as int));
            if t + 4 >= g - 1 {
                assert(bm(t + (g - 1 - t)));
                assert((g - 1) * 8 <= p - 1 < (g - 1) * 8 + 8);
            } else {
                assert(all_pat(line, t * 8, t * 8 + 40)) by {
                    assert forall|i: int| t * 8 <= i < t * 8 + 40 implies is_pat_unit(#[trigger] line[i]) by {
                        let k = i / 8 - t;
                        assert(bm(t + k));
                    }
                }
            }
        }
    }
    lemma_simd_finds_run_start_hit(line, p);
}

} // verus!
