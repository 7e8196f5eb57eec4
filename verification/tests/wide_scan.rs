use patscan::wide::{simd, sisd, PAT_LEN};
use rand::rngs::StdRng;
use rand::{Rng, SeedableRng};
use widestring::U16String;

const NTH: u8 = 5;
const LOTS: usize = 1_000;

fn pat_chars() -> Vec<char> {
    ('0'..='9').chain('a'..='z').collect()
}

fn every_nth_pat_chars() -> Vec<char> {
    ('0'..='9').chain('a'..='z').filter(|c| *c as u8 % NTH == 0).collect()
}

fn lower_hex_chars() -> Vec<char> {
    ('0'..='9').chain('a'..='f').collect()
}

fn not_pat_chars() -> Vec<char> {
    ('A'..='Z').collect()
}

fn random_pat(rng: &mut StdRng) -> U16String {
    random_chars(rng, &pat_chars(), PAT_LEN as usize)
}

fn random_chars(rng: &mut StdRng, chars: &[char], count: usize) -> U16String {
    let mut pat = U16String::with_capacity(count);
    for _ in 0..count {
        pat.push_char(chars[rng.gen_range(0..chars.len())]);
    }
    pat
}

fn units(s: &str) -> Vec<u16> {
    s.encode_utf16().collect()
}

fn check_match_direct(rng: &mut StdRng) {
    let pat_str = random_pat(rng);
    let pat = pat_str.as_slice();

    assert_eq!(sisd(pat).map(|i| i.0), Some(0), "{}", pat_str.to_string_lossy());
    assert_eq!(simd(pat).map(|i| i.0), Some(0), "{}", pat_str.to_string_lossy());
}

#[test]
fn lib_match_direct() {
    check_match_direct(&mut StdRng::seed_from_u64(1));
}

#[test]
fn match_direct_lots() {
    let mut rng = StdRng::seed_from_u64(2);
    for _ in 0..LOTS {
        check_match_direct(&mut rng);
    }
}

fn check_not_match_direct(rng: &mut StdRng) {
    let pat = random_pat(rng);

    let mut chars = pat.chars().map(|c| c.unwrap()).collect::<Vec<_>>();
    chars[PAT_LEN as usize / 2] = '$';
    let not_pat = U16String::from_iter(&chars);
    let not_pat = not_pat.as_slice();

    assert_eq!(sisd(&not_pat), None);
    assert_eq!(simd(&not_pat), None);
}

#[test]
fn lib_not_match_direct() {
    check_not_match_direct(&mut StdRng::seed_from_u64(3));
}

#[test]
fn not_match_direct_lots() {
    let mut rng = StdRng::seed_from_u64(4);
    for _ in 0..LOTS {
        check_not_match_direct(&mut rng);
    }
}

fn check_unlikely_pat_hex(rng: &mut StdRng) {
    let almost_pat = random_chars(rng, &lower_hex_chars(), PAT_LEN as usize);
    let almost_pat = almost_pat.as_slice();
    assert_eq!(sisd(&almost_pat), None);
    assert_eq!(simd(&almost_pat), None);
}

#[test]
fn unlikely_pat_hex() {
    check_unlikely_pat_hex(&mut StdRng::seed_from_u64(5));
}

#[test]
fn unlikely_pat_hex_lots() {
    let mut rng = StdRng::seed_from_u64(6);
    for _ in 0..LOTS {
        check_unlikely_pat_hex(&mut rng);
    }
}

fn check_unlikely_pat_every_nth(rng: &mut StdRng) {
    let almost_pat = random_chars(rng, &every_nth_pat_chars(), PAT_LEN as usize);
    let almost_pat = almost_pat.as_slice();
    assert_eq!(sisd(&almost_pat), None);
    assert_eq!(simd(&almost_pat), None);
}

#[test]
fn unlikely_pat_every_nth() {
    check_unlikely_pat_every_nth(&mut StdRng::seed_from_u64(7));
}

#[test]
fn unlikely_pat_every_nth_lots() {
    let mut rng = StdRng::seed_from_u64(8);
    for _ in 0..LOTS {
        check_unlikely_pat_every_nth(&mut rng);
    }
}

#[test]
fn lib_long_not_pat() {
    let mut rng = StdRng::seed_from_u64(9);
    let line = random_chars(&mut rng, &not_pat_chars(), 10000000);
    let line = line.as_slice();
    assert_eq!(sisd(&line), None);
    assert_eq!(simd(&line), None);
}

#[test]
fn lib_long_hidden_in_not() {
    let mut rng = StdRng::seed_from_u64(10);
    let pat = random_pat(&mut rng);
    let mut line = random_chars(&mut rng, &not_pat_chars(), 10_000);
    line.push(&pat);
    line.push(random_chars(&mut rng, &not_pat_chars(), 100));
    let line = line.as_slice();

    assert_eq!(simd(&line).iter().next().map(|i| i.0), Some(10000));
}

#[test]
fn lib_long_hidden_in_hex() {
    let mut rng = StdRng::seed_from_u64(11);
    let pat = random_pat(&mut rng);
    let mut line = random_chars(&mut rng, &lower_hex_chars(), 10_000);
    line.push(&pat);
    line.push(random_chars(&mut rng, &lower_hex_chars(), 100));
    let line = line.as_slice();

    let found = sisd(&line).iter().next().unwrap().0;
    assert!(found.abs_diff(10000) < PAT_LEN.into(), "{}", found);
    let found = sisd(&line).iter().next().unwrap().0;
    assert!(found.abs_diff(10000) < PAT_LEN.into(), "{}", found);
}

// A fixed window of 52 distinct-enough characters: all ten digits and all letters,
// then sixteen more letters.
const SAMPLE: &str = "0123456789abcdefghijklmnopqrstuvwxyzqwertyuiopasdfgh";

#[test]
fn sisd_reports_window_and_entropy() {
    let line = units(SAMPLE);
    let (start, window, entropy) = sisd(&line).unwrap();
    assert_eq!(start, 0);
    assert_eq!(window, &line[..]);
    // Sum of squared bucket counts 84: flatness 2704 / 84 = 32; average bucket 19,
    // two away from the middle bucket 17: 32 - 2 = 30.
    assert_eq!(entropy, 30);
}

#[test]
fn sisd_finds_window_after_prefix() {
    let mut s = String::from("XYZ ");
    s.push_str(SAMPLE);
    s.push_str("!!");
    let line = units(&s);
    let (start, window, _) = sisd(&line).unwrap();
    assert_eq!(start, 4);
    assert_eq!(window, &line[4..56]);
}

#[test]
fn sisd_windows_are_aligned_to_their_run() {
    // 52 repeated characters (low entropy) followed by the sample: the second
    // window of the run is inspected and found.
    let mut s = "a".repeat(52);
    s.push_str(SAMPLE);
    let line = units(&s);
    let (start, _, _) = sisd(&line).unwrap();
    assert_eq!(start, 52);
    // The sample in the middle of a run straddles two windows, neither of which is PAT-like.
    let s = format!("{}{}{}", "a".repeat(26), SAMPLE, "a".repeat(26));
    let line = units(&s);
    assert_eq!(sisd(&line), None);
    // A break before the sample starts a new run there.
    let s = format!("{}-{}{}", "a".repeat(26), SAMPLE, "a".repeat(26));
    let line = units(&s);
    assert_eq!(sisd(&line).map(|i| i.0), Some(27));
}

#[test]
fn sisd_short_line_has_no_match() {
    let line = units(&SAMPLE[..51]);
    assert_eq!(sisd(&line), None);
    assert_eq!(simd(&line), None);
    assert_eq!(sisd(&[]), None);
    assert_eq!(simd(&[]), None);
}

#[test]
fn simd_finds_sample() {
    let mut s = "Q".repeat(16);
    s.push_str(SAMPLE);
    s.push_str(&"Q".repeat(20));
    let line = units(&s);
    let (start, window, entropy) = simd(&line).unwrap();
    assert_eq!(start, 16);
    assert_eq!(window, &line[16..68]);
    assert_eq!(Some((start, window, entropy)), sisd(&line));
}

#[test]
fn simd_scans_tail_without_full_group() {
    // Fewer than 40 aligned PAT units: no group passes, the tail is scanned.
    let line = units(SAMPLE);
    let r = simd(&line).unwrap();
    assert_eq!(r.0, 0);
}

#[test]
fn wide_simd_realigns_windows_in_its_region() {
    // The region handed to the character scan starts inside the run, so its
    // windows are aligned differently and one of them is found.
    let s = format!("{}{}{}", "a".repeat(26), SAMPLE, "a".repeat(26));
    let line = units(&s);
    let (start, window, entropy) = simd(&line).unwrap();
    assert_eq!(start, 32);
    assert_eq!(window, &line[32..84]);
    assert_eq!(entropy, 17);
}

#[test]
fn simd_moves_on_after_empty_region() {
    // A high-entropy group of 40 characters followed by a non-PAT character:
    // the group passes the prefilter, its region holds no 52-character window,
    // and the scan moves on to the sample further on.
    let mut s = String::from(&SAMPLE[..40]);
    s.push('#');
    s.push_str(&"Z".repeat(111));
    s.push_str(SAMPLE);
    let line = units(&s);
    let found = simd(&line);
    assert_eq!(found, Some((152, &line[152..204], 30)));
    assert_eq!(found, sisd(&line));
    let s = format!("{}{}{}", &SAMPLE[..40], "A".repeat(70), SAMPLE);
    let line = units(&s);
    assert_eq!(simd(&line), Some((110, &line[110..162], 30)));
    assert_eq!(simd(&line), sisd(&line));
}

#[test]
fn wide_simd_region_starts_one_block_before_its_group() {
    let s = format!("{}AAAAAAAA{}AAAAAAAA{}{}", "abcdefgh".repeat(4), "abcdefgh".repeat(4), SAMPLE, "A".repeat(60));
    let line = units(&s);
    assert_eq!(simd(&line), Some((80, &line[80..132], 30)));
    assert_eq!(simd(&line), sisd(&line));
}

#[test]
fn wide_flattest_hex_window_is_not_a_pat() {
    let line = units(&format!("{}0123", "0123456789abcdef".repeat(3)));
    assert_eq!(sisd(&line), None);
    assert_eq!(simd(&line), None);
}

#[test]
fn wide_hex_lines_have_no_match() {
    let mut rng = StdRng::seed_from_u64(35);
    for _ in 0..200 {
        let line = random_chars(&mut rng, &lower_hex_chars(), 300);
        assert_eq!(sisd(line.as_slice()), None);
        assert_eq!(simd(line.as_slice()), None);
    }
}

#[test]
fn wide_matches_are_pat_windows() {
    let mut rng = StdRng::seed_from_u64(33);
    let mixed: Vec<char> = ('0'..='9').chain('a'..='z').chain(['A', '-']).collect();
    for _ in 0..200 {
        let mut line = random_chars(&mut rng, &mixed, 100);
        line.push(random_pat(&mut rng));
        line.push(random_chars(&mut rng, &mixed, 100));
        let line = line.as_slice();
        for found in [sisd(line), simd(line)] {
            if let Some((start, window, entropy)) = found {
                assert_eq!(window, &line[start..start + PAT_LEN as usize]);
                assert!(window.iter().all(|&c| (48..=57).contains(&c) || (97..=122).contains(&c)));
                assert!(entropy >= 8);
            }
        }
    }
}
