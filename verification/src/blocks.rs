//! Runs of PAT blocks and their division into groups of five.
//!
//! A block predicate `bp` says which blocks hold only PAT characters.  The
//! prefilters walk the blocks in order and inspect each run of PAT blocks in
//! groups of five counted from the start of the run.

use vstd::prelude::*;

verus! {

/// Number of consecutive PAT blocks that a prefilter inspects together.
pub const BLOCKS_TO_MATCH: u8 = 5;

/// Blocks `g..g + n` are all PAT blocks.
pub open spec fn all_blocks(bp: spec_fn(int) -> bool, g: int, n: int) -> bool {
    forall|k: int| 0 <= k < n ==> #[trigger] bp(g + k)
}

/// Start of the maximal run of PAT blocks that ends just before block `b`.
pub open spec fn block_run_start(bp: spec_fn(int) -> bool, b: int) -> int
    decreases b,
{
    if b <= 0 || !bp(b - 1) {
        b
    } else {
        block_run_start(bp, b - 1)
    }
}

/// Blocks `g..g + 5` are PAT blocks and `g` lies a multiple of five blocks into
/// its run: a group that the prefilter inspects.
pub open spec fn is_group(bp: spec_fn(int) -> bool, g: int) -> bool {
    &&& 0 <= g
    &&& all_blocks(bp, g, BLOCKS_TO_MATCH as int)
    &&& (g - block_run_start(bp, g)) % (BLOCKS_TO_MATCH as int) == 0
}

/// After blocks `0..j`, the scan stands `conf` blocks into a group of the current run.
pub open spec fn scan_state(bp: spec_fn(int) -> bool, j: int, conf: int) -> bool {
    &&& 0 <= conf < BLOCKS_TO_MATCH
    &&& conf <= j
    &&& block_run_start(bp, j) <= j - conf
    &&& (j - conf - block_run_start(bp, j)) % (BLOCKS_TO_MATCH as int) == 0
}

proof fn lemma_block_run_start(bp: spec_fn(int) -> bool, b: int)
    requires
        0 <= b,
    ensures
        0 <= block_run_start(bp, b) <= b,
        all_blocks(bp, block_run_start(bp, b), b - block_run_start(bp, b)),
        block_run_start(bp, b) == 0 || !bp(block_run_start(bp, b) - 1),
    decreases b,
{
    if b > 0 && bp(b - 1) {
        lemma_block_run_start(bp, b - 1);
        let r = block_run_start(bp, b);
        assert forall|k: int| 0 <= k < b - r implies #[trigger] bp(r + k) by {
            if k < b - 1 - r {
                assert(bp(r + k));
            }
        }
    }
}

proof fn lemma_block_run_start_same(bp: spec_fn(int) -> bool, s: int, b: int)
    requires
        0 <= s <= b,
        block_run_start(bp, b) <= s,
    ensures
        block_run_start(bp, s) == block_run_start(bp, b),
    decreases b - s,
{
    if s < b {
        lemma_block_run_start(bp, b);
        lemma_block_run_start_same(bp, s, b - 1);
    }
}

/// Within a run of PAT blocks grouped from `base`, no group starts strictly
/// before `base` and less than five blocks before it.
proof fn lemma_no_group_between(bp: spec_fn(int) -> bool, g: int, base: int, b: int)
    requires
        0 <= g < base < g + BLOCKS_TO_MATCH,
        base <= b,
        block_run_start(bp, b) <= base,
        (base - block_run_start(bp, b)) % (BLOCKS_TO_MATCH as int) == 0,
    ensures
        !is_group(bp, g),
{
    lemma_block_run_start(bp, b);
    let r = block_run_start(bp, b);
    if !is_group(bp, g) {
    } else if g < r {
        assert(!bp(r - 1));
        assert(bp(g + (r - 1 - g)));
    } else {
        lemma_block_run_start_same(bp, g, b);
    }
}

/// The blocks of the group in progress are PAT blocks.
pub proof fn lemma_scan_state(bp: spec_fn(int) -> bool, j: int, conf: int)
    requires
        scan_state(bp, j, conf),
    ensures
        all_blocks(bp, j - conf, conf),
{
    lemma_block_run_start(bp, j);
    let r = block_run_start(bp, j);
    assert forall|k: int| 0 <= k < conf implies #[trigger] bp(j - conf + k) by {
        assert(bp(r + (j - conf + k - r)));
    }
}

/// A PAT block that does not complete its group extends it; no group ends there.
pub proof fn lemma_step_extend(bp: spec_fn(int) -> bool, j: int, conf: int)
    requires
        scan_state(bp, j, conf),
        bp(j),
        conf + 1 < BLOCKS_TO_MATCH,
    ensures
        scan_state(bp, j + 1, conf + 1),
        forall|g: int| g + BLOCKS_TO_MATCH == j + 1 ==> !#[trigger] is_group(bp, g),
{
    lemma_block_run_start(bp, j);
    assert(block_run_start(bp, j + 1) == block_run_start(bp, j));
    assert forall|g: int| g + BLOCKS_TO_MATCH == j + 1 implies !#[trigger] is_group(bp, g) by {
        if g >= 0 {
            lemma_no_group_between(bp, g, j - conf, j + 1);
        }
    }
}

/// A PAT block that completes its group: the group is inspected and the next
/// group starts after it.
pub proof fn lemma_step_group(bp: spec_fn(int) -> bool, j: int, conf: int)
    requires
        scan_state(bp, j, conf),
        bp(j),
        conf + 1 == BLOCKS_TO_MATCH,
    ensures
        is_group(bp, j - conf),
        scan_state(bp, j + 1, 0),
{
    let g = j - conf;
    lemma_scan_state(bp, j, conf);
    lemma_block_run_start(bp, j);
    assert(block_run_start(bp, j + 1) == block_run_start(bp, j));
    lemma_block_run_start_same(bp, g, j);
    assert forall|k: int| 0 <= k < BLOCKS_TO_MATCH implies #[trigger] bp(g + k) by {
        if k < conf {
            assert(bp(g + k));
        }
    }
}

/// A non-PAT block ends the run: the next group starts after it, and no group
/// ends there.
pub proof fn lemma_step_break(bp: spec_fn(int) -> bool, j: int, conf: int)
    requires
        scan_state(bp, j, conf),
        !bp(j),
    ensures
        scan_state(bp, j + 1, 0),
        forall|g: int| g + BLOCKS_TO_MATCH == j + 1 ==> !#[trigger] is_group(bp, g),
{
    let base = j - conf;
    lemma_scan_state(bp, j, conf);
    lemma_block_run_start(bp, j);
    lemma_block_run_start_same(bp, base, j);
    assert forall|g: int| g + BLOCKS_TO_MATCH == j + 1 implies !#[trigger] is_group(bp, g) by {
        if is_group(bp, g) {
            assert(bp(g + (j - g)));
        }
    }
}

} // verus!
