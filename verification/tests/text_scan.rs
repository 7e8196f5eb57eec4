use patscan::text::{simd, simd_inner, simd_iter, sisd, sisd_inner, sisd_iter, PAT_LEN, SISD_ENTROPY_BOUND};
use rand::rngs::StdRng;
use rand::{Rng, SeedableRng};

fn pat_chars() -> Vec<char> {
    ('0'..='9').chain('a'..='z').collect()
}

fn lower_hex_chars() -> Vec<char> {
    ('0'..='9').chain('a'..='f').collect()
}

fn not_pat_chars() -> Vec<char> {
    ('A'..='Z').collect()
}

fn random_pat(rng: &mut StdRng) -> String {
    random_chars(rng, &pat_chars(), PAT_LEN as usize)
}

fn random_chars(rng: &mut StdRng, chars: &[char], count: usize) -> String {
    let mut pat = String::with_capacity(count);
    for _ in 0..count {
        pat.push(chars[rng.gen_range(0..chars.len())]);
    }
    pat
}

#[test]
fn main_match_direct() {
    let mut rng = StdRng::seed_from_u64(21);
    let pat = random_pat(&mut rng);
    assert_eq!(sisd(&pat).len(), 1);
    assert_eq!(simd(&pat).len(), 1);
}

#[test]
fn main_not_match_direct() {
    let mut rng = StdRng::seed_from_u64(22);
    let pat = random_pat(&mut rng);
    let mut chars = pat.chars().collect::<Vec<_>>();
    chars[PAT_LEN as usize / 2] = '$';
    let not_pat = String::from_iter(&chars);
    assert_eq!(sisd(&not_pat).len(), 0);
    assert_eq!(simd(&not_pat).len(), 0);
}

#[test]
fn unlikely_pat() {
    let mut rng = StdRng::seed_from_u64(23);
    let almost_pat = random_chars(&mut rng, &lower_hex_chars(), PAT_LEN as usize);
    assert_eq!(sisd(&almost_pat).len(), 0);
    assert_eq!(simd(&almost_pat).len(), 0);
}

#[test]
fn main_long_not_pat() {
    let mut rng = StdRng::seed_from_u64(24);
    let line = random_chars(&mut rng, &not_pat_chars(), 10000000);
    let line = line.as_str();
    assert_eq!(sisd(&line).len(), 0);
    assert_eq!(simd(&line).len(), 0);
}

#[test]
fn main_long_hidden_in_not() {
    let mut rng = StdRng::seed_from_u64(25);
    let pat = random_pat(&mut rng);
    let line = random_chars(&mut rng, &not_pat_chars(), 10_000) + &pat + &random_chars(&mut rng, &not_pat_chars(), 100);
    let line = &line;

    assert_eq!(sisd(&line).iter().next().map(|i| i.0), Some(10000));
    assert_eq!(simd(&line).iter().next().map(|i| i.0), Some(10000));
}

#[test]
fn main_long_hidden_in_hex() {
    let mut rng = StdRng::seed_from_u64(26);
    let pat = random_pat(&mut rng);
    let line = random_chars(&mut rng, &lower_hex_chars(), 10_000) + &pat + &random_chars(&mut rng, &lower_hex_chars(), 100);
    let line = &line;

    let found = sisd(&line).iter().next().unwrap().0;
    assert!(found.abs_diff(10000) < PAT_LEN.into(), "{}", found);
    let found = sisd(&line).iter().next().unwrap().0;
    assert!(found.abs_diff(10000) < PAT_LEN.into(), "{}", found);
}

const SAMPLE: &str = "0123456789abcdefghijklmnopqrstuvwxyzqwertyuiopasdfgh";

#[test]
fn sisd_reports_every_hit() {
    // Sum of squared bucket counts 84: 2704 - 84 = 2620.
    assert_eq!(sisd(SAMPLE), vec![(0, SAMPLE, 2620)]);
    let line = format!("X{}Y{}", SAMPLE, SAMPLE);
    assert_eq!(sisd(&line), vec![(1, SAMPLE, 2620), (54, SAMPLE, 2620)]);
    assert_eq!(sisd_inner(&line), sisd(&line));
    assert_eq!(sisd_iter(&line).collect::<Vec<_>>(), sisd(&line));
}

#[test]
fn sisd_skips_low_entropy_windows() {
    assert!(sisd(&"ab".repeat(40)).is_empty());
    assert!(sisd("").is_empty());
    assert!(sisd(&SAMPLE[..51]).is_empty());
}

#[test]
fn sisd_start_after_multibyte_character() {
    // Every byte of a multi-byte character resets the scan: the run of PAT
    // bytes starts at byte 2, right after the two-byte character.
    let line = format!("é{}{}", "a".repeat(52), SAMPLE);
    assert_eq!(&line[54..106], SAMPLE);
    assert_eq!(sisd(&line), vec![(54, SAMPLE, 2620)]);
}

#[test]
fn window_after_multibyte_character_is_found() {
    let line = format!("é{}", SAMPLE);
    assert_eq!(sisd(&line), vec![(2, SAMPLE, 2620)]);
    assert_eq!(simd_inner(&line), vec![(2, SAMPLE, 2620), (2, SAMPLE, 2620)]);
    assert_eq!(simd(&line), vec![(2, SAMPLE, 2620)]);
    // A line of multi-byte characters only has nothing to report.
    let line = "é".repeat(30);
    assert!(sisd(&line).is_empty());
    assert!(simd_inner(&line).is_empty());
    assert!(simd(&line).is_empty());
}

#[test]
fn simd_inner_reports_region_and_tail() {
    // The group at the start passes the prefilter and its region finds the
    // sample; the tail finds it again.
    assert_eq!(simd_inner(SAMPLE), vec![(0, SAMPLE, 2620), (0, SAMPLE, 2620)]);
    assert_eq!(simd_iter(SAMPLE).collect::<Vec<_>>(), simd_inner(SAMPLE));
    assert_eq!(simd(SAMPLE), vec![(0, SAMPLE, 2620)]);
}

#[test]
fn simd_rescans_each_passing_group() {
    // Two samples back to back: the first group's region finds both samples,
    // and the second group's region, starting at byte 32, finds the window there.
    let line = format!("{}{}", SAMPLE, SAMPLE);
    let found = simd_inner(&line);
    assert_eq!(found, vec![(0, SAMPLE, 2620), (52, SAMPLE, 2620), (32, &line[32..84], 2620)]);
    assert_eq!(&line[32..84], "wxyzqwertyuiopasdfgh0123456789abcdefghijklmnopqrstuv");
    assert_eq!(simd(&line), found);
}

#[test]
fn simd_keeps_first_match_per_start() {
    let line = format!("X{}Y{}", SAMPLE, SAMPLE);
    let inner = simd_inner(&line);
    assert_eq!(inner, vec![(1, SAMPLE, 2620), (54, SAMPLE, 2620), (54, SAMPLE, 2620)]);
    assert_eq!(simd(&line), vec![(1, SAMPLE, 2620), (54, SAMPLE, 2620)]);
}

#[test]
fn text_simd_realigns_windows_in_its_region() {
    let line = format!("{}{}{}", "a".repeat(26), SAMPLE, "a".repeat(26));
    assert!(sisd(&line).is_empty());
    assert_eq!(simd(&line), vec![(32, &line[32..84], 2566)]);
}

#[test]
fn simd_tail_starts_are_positions_in_line() {
    // The region of the only group and the tail both find the sample at byte 8.
    let line = format!("AAAAAAAA{}", SAMPLE);
    assert_eq!(simd_inner(&line), vec![(8, SAMPLE, 2620), (8, SAMPLE, 2620)]);
    assert_eq!(simd(&line), vec![(8, SAMPLE, 2620)]);
    // No group passes here; the tail starts at byte 53 and its window is
    // reported at its position in the line.
    let line = format!("é{}{}", "a".repeat(52), SAMPLE);
    assert_eq!(simd_inner(&line), vec![(53, &line[53..105], 2618)]);
    for (start, text, _) in simd_inner(&line) {
        assert_eq!(&line[start..start + PAT_LEN as usize], text);
    }
}

#[test]
fn simd_region_starts_one_block_before_its_group() {
    // Runs of four PAT blocks are never inspected; the sample's group starts
    // at block 10 and its region at byte 72, so the sample is found.
    let line = format!("{}AAAAAAAA{}AAAAAAAA{}{}", "abcdefgh".repeat(4), "abcdefgh".repeat(4), SAMPLE, "A".repeat(60));
    assert_eq!(sisd(&line), vec![(80, SAMPLE, 2620)]);
    assert_eq!(simd(&line), vec![(80, SAMPLE, 2620)]);
}

#[test]
fn flattest_hex_window_is_not_a_pat() {
    // The lowest sum of squares that 52 hexadecimal digits can have: 172.
    let line = format!("{}0123", "0123456789abcdef".repeat(3));
    assert_eq!(line.len(), PAT_LEN as usize);
    assert_eq!(SISD_ENTROPY_BOUND, 2704 - 172);
    assert!(sisd(&line).is_empty());
    assert!(simd(&line).is_empty());
}

#[test]
fn hex_lines_have_no_match() {
    let mut rng = StdRng::seed_from_u64(34);
    for _ in 0..200 {
        let line = random_chars(&mut rng, &lower_hex_chars(), 300);
        assert!(sisd(&line).is_empty());
        assert!(simd(&line).is_empty());
    }
}

#[test]
fn iterators_give_what_the_scans_give() {
    let line = format!("X{}Y{}-{}", SAMPLE, SAMPLE, "a".repeat(30));
    assert_eq!(sisd_iter(&line).collect::<Vec<_>>(), sisd(&line));
    assert_eq!(sisd_iter(&line).next(), sisd(&line).first().cloned());
    assert_eq!(simd_iter(&line).collect::<Vec<_>>(), simd_inner(&line));
}

#[test]
fn text_matches_are_pat_windows() {
    let mut rng = StdRng::seed_from_u64(31);
    let mixed: Vec<char> = ('0'..='9').chain('a'..='z').chain(['A', '-', 'é', '€']).collect();
    for _ in 0..200 {
        let line = random_chars(&mut rng, &pat_chars(), 60)
            + &random_chars(&mut rng, &mixed, 200)
            + &random_chars(&mut rng, &pat_chars(), 120);
        let found = sisd(&line);
        for w in found.windows(2) {
            assert!(w[0].0 + PAT_LEN as usize <= w[1].0);
        }
        for (start, text, entropy) in &found {
            assert_eq!(&line[*start..*start + PAT_LEN as usize], *text);
            assert!(text.bytes().all(|b| b.is_ascii_digit() || b.is_ascii_lowercase()));
            assert!(*entropy > SISD_ENTROPY_BOUND);
        }
        let found = simd(&line);
        for (i, a) in found.iter().enumerate() {
            assert_eq!(&line[a.0..a.0 + PAT_LEN as usize], a.1);
            assert!(a.1.bytes().all(|b| b.is_ascii_digit() || b.is_ascii_lowercase()));
            assert!(a.2 > SISD_ENTROPY_BOUND);
            assert!(found[i + 1..].iter().all(|b| b.0 != a.0));
        }
    }
}
