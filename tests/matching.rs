use chromaprint_matcher::matcher::{
    count_bits, find_fingerprint_match, find_match_index, fingerprint_score, MatchParams, Score,
    Threshold,
};
use chromaprint_matcher::song::Song;

fn song(duration: i32, print: Vec<i32>, name: &str) -> Song {
    Song { compressed_print: name.to_string(), print, duration }
}

fn params(max: i32, imm: (u32, u32), part: (u32, u32)) -> MatchParams {
    MatchParams {
        max_match_duration_diff: max,
        match_immediate_threshold: Threshold::new(imm.0, imm.1).unwrap(),
        match_partial_threshold: Threshold::new(part.0, part.1).unwrap(),
    }
}

fn value(s: &Score) -> f64 {
    1.0 - s.errors as f64 / (32.0 * s.words as f64)
}

#[test]
fn count_bits_counts_set_bits() {
    assert_eq!(count_bits(0), 0);
    assert_eq!(count_bits(1), 1);
    assert_eq!(count_bits(0xffff_ffff), 32);
    assert_eq!(count_bits(0b1011_0000), 3);
}

#[test]
fn single_word_score_is_one_minus_k_over_32() {
    for k in 0..=32u32 {
        let mask: u32 = if k == 32 { u32::MAX } else { (1u32 << k) - 1 };
        let a = vec![0x1234_5678i32];
        let b = vec![0x1234_5678i32 ^ (mask as i32)];
        let s = fingerprint_score(&a, &b);
        assert_eq!(s.errors, k as u128);
        assert_eq!(s.words, 1);
        assert_eq!(value(&s), 1.0 - k as f64 / 32.0);
    }
}

#[test]
fn score_ignores_suffix_of_longer_print() {
    let a = vec![5, -7, 1 << 20];
    let b = vec![5, -7, 1 << 20, 99, -1, 3];
    let c = vec![5, -7, 1 << 20, 0x0f0f];
    let s1 = fingerprint_score(&a, &b);
    let s2 = fingerprint_score(&a, &c);
    assert_eq!((s1.errors, s1.words), (0, 3));
    assert_eq!((s2.errors, s2.words), (0, 3));
    let d = vec![4, -7];
    let s3 = fingerprint_score(&d, &b);
    assert_eq!((s3.errors, s3.words), (1, 2));
}

#[test]
fn empty_prints_score_one() {
    let s = fingerprint_score(&vec![], &vec![1, 2]);
    assert_eq!((s.errors, s.words), (0, 1));
    assert_eq!(value(&s), 1.0);
}

#[test]
fn empty_destination_gives_no_match() {
    let q = song(180, vec![1, 2, 3], "q");
    let dst: Vec<Song> = Vec::new();
    let (m, s) = find_fingerprint_match(&q, &dst, &MatchParams::default());
    assert!(m.is_none());
    assert_eq!(value(&s), 0.0);
}

#[test]
fn self_match_scores_one() {
    let q = song(181, vec![7, -9, 12345], "AQAATUmY");
    let dst = vec![song(180, vec![7, -9, 12345], "AQAATUmY")];
    let (m, s) = find_fingerprint_match(&q, &dst, &MatchParams::default());
    assert_eq!(m.unwrap().compressed_print, "AQAATUmY");
    assert_eq!(value(&s), 1.0);
    assert_eq!(format!("{:.6}", value(&s)), "1.000000");
}

#[test]
fn duration_filter_skips_identical_print() {
    let q = song(100, vec![1, 2, 3], "q");
    let dst = vec![song(106, vec![1, 2, 3], "far"), song(94, vec![1, 2, 3], "far2")];
    let (m, _) = find_fingerprint_match(&q, &dst, &MatchParams::default());
    assert!(m.is_none());
    let dst = vec![song(106, vec![1, 2, 3], "far"), song(95, vec![1, 2, 3], "near")];
    let (i, _) = find_match_index(&q, &dst, &MatchParams::default());
    assert_eq!(i, Some(1));
}

#[test]
fn first_immediate_match_wins() {
    let q = song(100, vec![0; 4], "q");
    // 1 bit error in 128: score 127/128, above 0.98.
    let dst = vec![song(100, vec![1, 0, 0, 0], "a"), song(100, vec![0; 4], "b")];
    let (i, s) = find_match_index(&q, &dst, &MatchParams::default());
    assert_eq!(i, Some(0));
    assert_eq!((s.errors, s.words), (1, 4));
}

#[test]
fn higher_partial_score_wins() {
    let q = song(100, vec![0; 2], "q");
    // scores: 1 - 8/64 = 0.875 and 1 - 4/64 = 0.9375
    let dst = vec![song(100, vec![0xff, 0], "a"), song(100, vec![0x0f, 0], "b")];
    let p = params(5, (99, 100), (0, 1));
    let (i, s) = find_match_index(&q, &dst, &p);
    assert_eq!(i, Some(1));
    assert_eq!(value(&s), 0.9375);
}

#[test]
fn first_of_equal_partial_scores_wins() {
    let q = song(100, vec![0; 2], "q");
    let dst = vec![
        song(100, vec![0xff, 0], "a"),
        song(100, vec![0x0f, 0], "b"),
        song(100, vec![0, 0x0f], "c"),
    ];
    let p = params(5, (99, 100), (0, 1));
    let (m, _) = find_fingerprint_match(&q, &dst, &p);
    assert_eq!(m.unwrap().compressed_print, "b");
}

#[test]
fn below_partial_is_never_returned() {
    let q = song(100, vec![0; 2], "q");
    let dst = vec![song(100, vec![0xff, 0], "a")];
    let p = params(5, (99, 100), (9, 10));
    let (i, s) = find_match_index(&q, &dst, &p);
    assert_eq!(i, None);
    assert_eq!(value(&s), 0.0);
}

#[test]
fn default_params_are_fixed() {
    let p = MatchParams::default();
    assert_eq!(p.max_match_duration_diff, 5);
    assert_eq!((p.match_immediate_threshold.num, p.match_immediate_threshold.den), (49, 50));
    assert_eq!((p.match_partial_threshold.num, p.match_partial_threshold.den), (49, 50));
}

#[test]
fn threshold_must_lie_in_unit_range() {
    assert!(Threshold::new(1, 0).is_none());
    assert!(Threshold::new(3, 2).is_none());
    assert!(Threshold::new(0, 1).is_some());
}

#[test]
fn matching_twice_gives_the_same_outcome() {
    let q = song(100, vec![0, 3, 5], "q");
    let dst = vec![
        song(99, vec![1, 3, 5], "a"),
        song(101, vec![0, 3, 4], "b"),
        song(120, vec![0, 3, 5], "c"),
    ];
    let p = params(5, (99, 100), (9, 10));
    let (i1, s1) = find_match_index(&q, &dst, &p);
    let (i2, s2) = find_match_index(&q, &dst, &p);
    assert_eq!(i1, i2);
    assert_eq!((s1.errors, s1.words), (s2.errors, s2.words));
    assert_eq!(i1, Some(0));
}

#[test]
fn score_comparisons_are_exact() {
    let a = Score { errors: 1, words: 3 };
    let b = Score { errors: 2, words: 6 };
    let c = Score { errors: 1, words: 4 };
    assert!(!a.above(&b) && !b.above(&a));
    assert!(c.above(&a));
    assert!(!a.above(&c));
    let big = Score { errors: 32 * (u64::MAX as u128) - 1, words: u64::MAX as usize };
    let full = Score { errors: 32 * (u64::MAX as u128), words: u64::MAX as usize };
    assert!(big.above(&full));
    assert!(!full.above(&big));
    let half = Threshold::new(1, 2).unwrap();
    assert!(Score { errors: 16, words: 1 }.at_least(&half));
    assert!(!Score { errors: 17, words: 1 }.at_least(&half));
    assert!(Score::zero().at_least(&Threshold::new(0, 1).unwrap()));
    assert!(!Score::zero().at_least(&Threshold::new(1, 1000).unwrap()));
}
