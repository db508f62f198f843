use vstd::prelude::*;

use crate::song::Song;

verus! {

/// Number of set bits among the lowest `n` bits of `x`.
pub open spec fn popcount_n(x: nat, n: nat) -> nat
    decreases n,
{
    if n == 0 {
        0
    } else {
        x % 2 + popcount_n(x / 2, (n - 1) as nat)
    }
}

/// Number of set bits of a 32-bit word.
pub open spec fn popcount(x: u32) -> nat {
    popcount_n(x as nat, 32)
}

/// Bit errors between two words: the set bits of their exclusive or.
pub open spec fn word_errors(x: i32, y: i32) -> nat {
    popcount((x ^ y) as u32)
}

/// Bit errors accumulated over the first `n` positions of two prints.
pub open spec fn errors_upto(a: Seq<i32>, b: Seq<i32>, n: int) -> nat
    decreases n,
{
    if n <= 0 {
        0
    } else {
        errors_upto(a, b, n - 1) + word_errors(a[n - 1], b[n - 1])
    }
}

/// Length of the shared prefix of two prints.
pub open spec fn shared_len(a: Seq<i32>, b: Seq<i32>) -> int {
    if a.len() <= b.len() {
        a.len() as int
    } else {
        b.len() as int
    }
}

/// Bit errors over the shared prefix of two prints.
pub open spec fn print_errors(a: Seq<i32>, b: Seq<i32>) -> nat {
    errors_upto(a, b, shared_len(a, b))
}

/// Number of words the score is normalised by: the shared length, at least one.
pub open spec fn print_words(a: Seq<i32>, b: Seq<i32>) -> nat {
    if shared_len(a, b) == 0 {
        1
    } else {
        shared_len(a, b) as nat
    }
}

proof fn lemma_popcount_n_bound(x: nat, n: nat)
    ensures
        popcount_n(x, n) <= n,
    decreases n,
{
    if n > 0 {
        lemma_popcount_n_bound(x / 2, (n - 1) as nat);
    }
}

proof fn lemma_errors_upto_bound(a: Seq<i32>, b: Seq<i32>, n: int)
    ensures
        errors_upto(a, b, n) <= 32 * (if n < 0 { 0 } else { n }),
    decreases n,
{
    if n > 0 {
        lemma_errors_upto_bound(a, b, n - 1);
        lemma_popcount_n_bound(((a[n - 1] ^ b[n - 1]) as u32) as nat, 32);
    }
}

/// Counts the set bits of a word.
pub fn count_bits(x: u32) -> (r: u32)
    ensures
        r == popcount(x),
{
    let mut v: u32 = x;
    let mut c: u32 = 0;
    let mut i: u32 = 0;
    while i < 32
        invariant
            i <= 32,
            c <= i,
            c + popcount_n(v as nat, (32 - i) as nat) == popcount(x),
        decreases 32 - i,
    {
        c = c + v % 2;
        v = v / 2;
        i = i + 1;
    }
    c
}

/// A score of `1 - errors / (32 * words)` reaches the threshold `t`.
pub open spec fn reaches_threshold(errors: int, words: int, t: Threshold) -> bool {
    (32 * words - errors) * t.den >= t.num * (32 * words)
}

/// The score `1 - e1 / (32 * w1)` is strictly higher than `1 - e2 / (32 * w2)`.
pub open spec fn scores_above(e1: int, w1: int, e2: int, w2: int) -> bool {
    e1 * w2 < e2 * w1
}

/// Similarity of two fingerprints, held exactly: `1 - errors / (32 * words)`.
pub struct Score {
    pub errors: u128,
    pub words: usize,
}

impl Score {
    /// The score lies in [0, 1] and is normalised by at least one word.
    pub open spec fn wf(&self) -> bool {
        self.words > 0 && self.errors <= 32 * self.words
    }


    /// The zero score, reported when nothing matched.
    pub fn zero() -> (r: Score)
        ensures
            r.wf(),
            r.errors == 32,
            r.words == 1,
    {
        Score { errors: 32, words: 1 }
    }

    /// Whether this score reaches the threshold `t`.
    pub fn at_least(&self, t: &Threshold) -> (r: bool)
        requires
            self.wf(),
        ensures
            r == reaches_threshold(self.errors as int, self.words as int, *t),
    {
        let bits: u128 = 32 * (self.words as u128);
        let agree: u128 = bits - self.errors;
        proof {
            assert(bits <= 32 * 0x1_0000_0000_0000_0000);
            assert(agree * (t.den as u128) <= bits * 0x1_0000_0000) by (nonlinear_arith)
                requires agree <= bits, t.den < 0x1_0000_0000;
            assert((t.num as u128) * bits <= 0x1_0000_0000 * bits) by (nonlinear_arith)
                requires t.num < 0x1_0000_0000;
            assert(bits * 0x1_0000_0000 <= 32 * 0x1_0000_0000_0000_0000 * 0x1_0000_0000)
                by (nonlinear_arith)
                requires bits <= 32 * 0x1_0000_0000_0000_0000;
        }
        agree * (t.den as u128) >= (t.num as u128) * bits
    }

    /// Whether this score is strictly higher than `other`.
    pub fn above(&self, other: &Score) -> (r: bool)
        requires
            self.wf(),
            other.wf(),
        ensures
            r == scores_above(
                self.errors as int,
                self.words as int,
                other.errors as int,
                other.words as int,
            ),
    {
        let w1: u128 = self.words as u128;
        let w2: u128 = other.words as u128;
        let q1: u128 = self.errors / w1;
        let r1: u128 = self.errors % w1;
        let q2: u128 = other.errors / w2;
        let r2: u128 = other.errors % w2;
        proof {
            lemma_above_by_parts(self.errors as int, w1 as int, other.errors as int, w2 as int);
        }
        if q1 != q2 {
            q1 < q2
        } else {
            proof {
                assert(r1 * w2 < 0x1_0000_0000_0000_0000 * 0x1_0000_0000_0000_0000)
                    by (nonlinear_arith)
                    requires r1 < w1, w1 <= 0x1_0000_0000_0000_0000, w2 <= 0x1_0000_0000_0000_0000;
                assert(r2 * w1 < 0x1_0000_0000_0000_0000 * 0x1_0000_0000_0000_0000)
                    by (nonlinear_arith)
                    requires r2 < w2, w1 <= 0x1_0000_0000_0000_0000, w2 <= 0x1_0000_0000_0000_0000;
            }
            r1 * w2 < r2 * w1
        }
    }
}

/// Comparing `e1 / w1` with `e2 / w2` by whole parts first, then by remainders.
proof fn lemma_above_by_parts(e1: int, w1: int, e2: int, w2: int)
    requires
        w1 > 0,
        w2 > 0,
        e1 >= 0,
        e2 >= 0,
    ensures
        e1 / w1 < e2 / w2 ==> e2 * w1 > e1 * w2,
        e1 / w1 > e2 / w2 ==> e2 * w1 < e1 * w2,
        e1 / w1 == e2 / w2 ==> (e1 * w2 < e2 * w1 <==> (e1 % w1) * w2 < (e2 % w2) * w1),
{
    let q1 = e1 / w1;
    let r1 = e1 % w1;
    let q2 = e2 / w2;
    let r2 = e2 % w2;
    assert(e1 == q1 * w1 + r1 && 0 <= r1 < w1) by (nonlinear_arith)
        requires w1 > 0, q1 == e1 / w1, r1 == e1 % w1;
    assert(e2 == q2 * w2 + r2 && 0 <= r2 < w2) by (nonlinear_arith)
        requires w2 > 0, q2 == e2 / w2, r2 == e2 % w2;
    assert(e1 * w2 == q1 * w1 * w2 + r1 * w2) by (nonlinear_arith)
        requires e1 == q1 * w1 + r1;
    assert(e2 * w1 == q2 * w1 * w2 + r2 * w1) by (nonlinear_arith)
        requires e2 == q2 * w2 + r2;
    if q1 < q2 {
        assert(r1 * w2 < w1 * w2) by (nonlinear_arith)
            requires r1 < w1, w2 > 0;
        assert((q1 + 1) * w1 * w2 <= q2 * w1 * w2) by (nonlinear_arith)
            requires q1 + 1 <= q2, w1 > 0, w2 > 0;
        assert(r2 * w1 >= 0) by (nonlinear_arith)
            requires r2 >= 0, w1 > 0;
        assert((q1 + 1) * w1 * w2 == q1 * w1 * w2 + w1 * w2) by (nonlinear_arith);
    }
    if q1 > q2 {
        assert(r2 * w1 < w1 * w2) by (nonlinear_arith)
            requires r2 < w2, w1 > 0;
        assert((q2 + 1) * w1 * w2 <= q1 * w1 * w2) by (nonlinear_arith)
            requires q2 + 1 <= q1, w1 > 0, w2 > 0;
        assert(r1 * w2 >= 0) by (nonlinear_arith)
            requires r1 >= 0, w2 > 0;
        assert((q2 + 1) * w1 * w2 == q2 * w1 * w2 + w1 * w2) by (nonlinear_arith);
    }
}

/// A similarity threshold held exactly as the fraction `num / den`.
pub struct Threshold {
    pub num: u32,
    pub den: u32,
}

impl Threshold {
    /// A threshold in [0, 1] with a nonzero denominator.
    pub open spec fn wf(&self) -> bool {
        self.den > 0 && self.num <= self.den
    }

    /// The threshold `num / den`, when it lies in [0, 1].
    pub fn new(num: u32, den: u32) -> (r: Option<Threshold>)
        ensures
            r is Some <==> den > 0 && num <= den,
            r matches Some(t) ==> t.num == num && t.den == den && t.wf(),
    {
        if den > 0 && num <= den {
            Some(Threshold { num, den })
        } else {
            None
        }
    }
}

/// The tunable parameters of a matching run.
pub struct MatchParams {
    pub max_match_duration_diff: i32,
    pub match_immediate_threshold: Threshold,
    pub match_partial_threshold: Threshold,
}

/// Default tolerance, in seconds, between the durations of two matching songs.
pub const DEFAULT_MAX_MATCH_DURATION_DIFF: i32 = 5;

/// Numerator of the default thresholds (0.98).
pub const DEFAULT_THRESHOLD_NUM: u32 = 49;

/// Denominator of the default thresholds (0.98).
pub const DEFAULT_THRESHOLD_DEN: u32 = 50;

impl MatchParams {
    /// Both thresholds lie in [0, 1] and the partial one does not exceed the immediate one.
    pub open spec fn wf(&self) -> bool {
        &&& self.match_immediate_threshold.wf()
        &&& self.match_partial_threshold.wf()
        &&& self.match_partial_threshold.num * self.match_immediate_threshold.den
            <= self.match_immediate_threshold.num * self.match_partial_threshold.den
    }
}

impl Default for MatchParams {
    fn default() -> (r: Self)
        ensures
            r.max_match_duration_diff == DEFAULT_MAX_MATCH_DURATION_DIFF,
            r.match_immediate_threshold == (Threshold {
                num: DEFAULT_THRESHOLD_NUM,
                den: DEFAULT_THRESHOLD_DEN,
            }),
            r.match_partial_threshold == (Threshold {
                num: DEFAULT_THRESHOLD_NUM,
                den: DEFAULT_THRESHOLD_DEN,
            }),
            r.wf(),
    {
        MatchParams {
            max_match_duration_diff: DEFAULT_MAX_MATCH_DURATION_DIFF,
            match_immediate_threshold: Threshold {
                num: DEFAULT_THRESHOLD_NUM,
                den: DEFAULT_THRESHOLD_DEN,
            },
            match_partial_threshold: Threshold {
                num: DEFAULT_THRESHOLD_NUM,
                den: DEFAULT_THRESHOLD_DEN,
            },
        }
    }
}

/// Scores two prints over their shared prefix: `1 - errors / (32 * max(1, shared length))`.
pub fn fingerprint_score(a: &Vec<i32>, b: &Vec<i32>) -> (r: Score)
    ensures
        r.wf(),
        r.errors == print_errors(a@, b@),
        r.words == print_words(a@, b@),
{
    let n: usize = if a.len() <= b.len() {
        a.len()
    } else {
        b.len()
    };
    let mut errors: u128 = 0;
    let mut i: usize = 0;
    while i < n
        invariant
            n == shared_len(a@, b@),
            i <= n,
            errors == errors_upto(a@, b@, i as int),
            errors <= 32 * i,
        decreases n - i,
    {
        let bits: u32 = count_bits((a[i] ^ b[i]) as u32);
        errors = errors + bits as u128;
        i = i + 1;
        proof {
            lemma_errors_upto_bound(a@, b@, i as int);
        }
    }
    let words: usize = if n == 0 {
        1
    } else {
        n
    };
    Score { errors, words }
}

/// Durations of `q` and `c` differ by at most `max`.
pub open spec fn within_duration(q: Song, c: Song, max: i32) -> bool {
    let d = q.duration - c.duration;
    (if d < 0 { -d } else { d }) <= max
}

/// Candidate `i` passes the duration filter and reaches the threshold `t`.
pub open spec fn reaches(q: Song, cands: Seq<Song>, max: i32, t: Threshold, i: int) -> bool {
    &&& within_duration(q, cands[i], max)
    &&& reaches_threshold(
        print_errors(q.print@, cands[i].print@) as int,
        print_words(q.print@, cands[i].print@) as int,
        t,
    )
}

/// Candidate `i` is a confident match.
pub open spec fn immediate_at(q: Song, cands: Seq<Song>, p: MatchParams, i: int) -> bool {
    reaches(q, cands, p.max_match_duration_diff, p.match_immediate_threshold, i)
}

/// Candidate `i` is eligible as a best partial match.
pub open spec fn partial_at(q: Song, cands: Seq<Song>, p: MatchParams, i: int) -> bool {
    reaches(q, cands, p.max_match_duration_diff, p.match_partial_threshold, i)
}

/// Candidate `i` scores strictly higher against `q` than candidate `j`.
pub open spec fn beats(q: Song, cands: Seq<Song>, i: int, j: int) -> bool {
    scores_above(
        print_errors(q.print@, cands[i].print@) as int,
        print_words(q.print@, cands[i].print@) as int,
        print_errors(q.print@, cands[j].print@) as int,
        print_words(q.print@, cands[j].print@) as int,
    )
}

/// `i` is the first confident match in the scan.
pub open spec fn first_immediate(q: Song, cands: Seq<Song>, p: MatchParams, i: int) -> bool {
    &&& 0 <= i < cands.len()
    &&& immediate_at(q, cands, p, i)
    &&& forall|j: int| 0 <= j < i ==> !immediate_at(q, cands, p, j)
}

/// No candidate is a confident match.
pub open spec fn no_immediate(q: Song, cands: Seq<Song>, p: MatchParams) -> bool {
    forall|j: int| 0 <= j < cands.len() ==> !immediate_at(q, cands, p, j)
}

/// `i` is the first eligible candidate with the highest score among the eligible ones.
pub open spec fn best_partial(q: Song, cands: Seq<Song>, p: MatchParams, i: int) -> bool {
    &&& 0 <= i < cands.len()
    &&& partial_at(q, cands, p, i)
    &&& forall|j: int| 0 <= j < i && partial_at(q, cands, p, j) ==> beats(q, cands, i, j)
    &&& forall|j: int|
        i < j < cands.len() && partial_at(q, cands, p, j) ==> !beats(q, cands, j, i)
}

/// `r` is the outcome of matching `q` against `cands`: the first confident match if there
/// is one, else the first best eligible candidate, else nothing.
pub open spec fn match_outcome(q: Song, cands: Seq<Song>, p: MatchParams, r: Option<int>) -> bool {
    match r {
        Some(i) => first_immediate(q, cands, p, i) || (no_immediate(q, cands, p) && best_partial(
            q,
            cands,
            p,
            i,
        )),
        None => forall|j: int|
            0 <= j < cands.len() ==> !immediate_at(q, cands, p, j) && !partial_at(q, cands, p, j),
    }
}

/// An optional index as a mathematical integer.
pub open spec fn index_of(i: Option<usize>) -> Option<int> {
    match i {
        Some(i) => Some(i as int),
        None => None,
    }
}

/// `e_a / w_a < e_b / w_b` and `e_b / w_b <= e_c / w_c` give `e_a / w_a < e_c / w_c`.
proof fn lemma_ratio_lt_le(ea: int, wa: int, eb: int, wb: int, ec: int, wc: int)
    requires
        wa > 0,
        wb > 0,
        wc > 0,
        ea * wb < eb * wa,
        eb * wc <= ec * wb,
    ensures
        ea * wc < ec * wa,
{
    assert(ea * wb * wc < eb * wa * wc) by (nonlinear_arith)
        requires ea * wb < eb * wa, wc > 0;
    assert(eb * wc * wa <= ec * wb * wa) by (nonlinear_arith)
        requires eb * wc <= ec * wb, wa > 0;
    assert(ea * wc * wb < ec * wa * wb) by (nonlinear_arith)
        requires ea * wb * wc < eb * wa * wc, eb * wc * wa <= ec * wb * wa;
    assert(ea * wc < ec * wa) by (nonlinear_arith)
        requires ea * wc * wb < ec * wa * wb, wb > 0;
}

/// Finds the index of the candidate that `song` matches: the first candidate within the
/// duration tolerance whose score reaches the immediate threshold, or else the first one
/// with the highest score among those reaching the partial threshold.
pub fn find_match_index(song: &Song, dst_songs: &[Song], params: &MatchParams) -> (r: (
    Option<usize>,
    Score,
))
    ensures
        match_outcome(*song, dst_songs@, *params, index_of(r.0)),
        r.1.wf(),
        r.0 matches Some(i) ==> r.1.errors == print_errors(song.print@, dst_songs@[i as int].print@)
            && r.1.words == print_words(song.print@, dst_songs@[i as int].print@),
        r.0 is None ==> r.1.errors == 32 && r.1.words == 1,
        dst_songs@.len() == 0 ==> r.0 is None,
{
    let mut best: Option<usize> = None;
    let mut best_score: Score = Score::zero();
    let ghost q = *song;
    let ghost cands = dst_songs@;
    let ghost p = *params;
    let mut k: usize = 0;
    while k < dst_songs.len()
        invariant
            q == *song,
            cands == dst_songs@,
            p == *params,
            k <= cands.len(),
            best_score.wf(),
            forall|j: int| 0 <= j < k ==> !immediate_at(q, cands, p, j),
            match best {
                Some(b) => {
                    &&& b < k
                    &&& partial_at(q, cands, p, b as int)
                    &&& best_score.errors == print_errors(q.print@, cands[b as int].print@)
                    &&& best_score.words == print_words(q.print@, cands[b as int].print@)
                    &&& forall|j: int|
                        0 <= j < b && partial_at(q, cands, p, j) ==> beats(q, cands, b as int, j)
                    &&& forall|j: int|
                        b < j < k && partial_at(q, cands, p, j) ==> !beats(q, cands, j, b as int)
                },
                None => {
                    &&& forall|j: int| 0 <= j < k ==> !partial_at(q, cands, p, j)
                    &&& best_score.errors == 32 && best_score.words == 1
                },
            },
        decreases cands.len() - k,
    {
        let dst = &dst_songs[k];
        let diff: i64 = song.duration as i64 - dst.duration as i64;
        let dist: i64 = if diff < 0 {
            -diff
        } else {
            diff
        };
        if dist <= params.max_match_duration_diff as i64 {
            let score = fingerprint_score(&song.print, &dst.print);
            if score.at_least(&params.match_immediate_threshold) {
                return (Some(k), score);
            }
            if score.at_least(&params.match_partial_threshold) {
                let better = match best {
                    None => true,
                    Some(_) => score.above(&best_score),
                };
                if better {
                    proof {
                        if let Some(b) = best {
                            let ek = print_errors(q.print@, cands[k as int].print@) as int;
                            let wk = print_words(q.print@, cands[k as int].print@) as int;
                            let eb = print_errors(q.print@, cands[b as int].print@) as int;
                            let wb = print_words(q.print@, cands[b as int].print@) as int;
                            assert forall|j: int|
                                0 <= j < k && partial_at(q, cands, p, j) implies beats(
                                q,
                                cands,
                                k as int,
                                j,
                            ) by {
                                let ej = print_errors(q.print@, cands[j].print@) as int;
                                let wj = print_words(q.print@, cands[j].print@) as int;
                                if j < b {
                                    assert(beats(q, cands, b as int, j));
                                    lemma_ratio_lt_le(ek, wk, eb, wb, ej, wj);
                                } else if j > b {
                                    assert(!beats(q, cands, j, b as int));
                                    lemma_ratio_lt_le(ek, wk, eb, wb, ej, wj);
                                }
                            }
                        }
                    }
                    best = Some(k);
                    best_score = score;
                }
            }
        }
        k = k + 1;
    }
    (best, best_score)
}

/// Finds the song of `dst_songs` that `song` matches, with its score; see
/// [`find_match_index`] for which one is chosen.
pub fn find_fingerprint_match<'a>(song: &'a Song, dst_songs: &'a [Song], params: &MatchParams) -> (r: (
    Option<&'a Song>,
    Score,
))
    ensures
        r.1.wf(),
        r.0 is None ==> match_outcome(*song, dst_songs@, *params, None) && r.1.errors == 32
            && r.1.words == 1,
        r.0 matches Some(s) ==> exists|i: int|
            match_outcome(*song, dst_songs@, *params, Some(i)) && *s == dst_songs@[i]
                && r.1.errors == print_errors(song.print@, dst_songs@[i].print@) && r.1.words
                == print_words(song.print@, dst_songs@[i].print@),
{
    let (idx, score) = find_match_index(song, dst_songs, params);
    match idx {
        Some(i) => (Some(&dst_songs[i]), score),
        None => (None, score),
    }
}

/// Matching is deterministic: the matching rule admits one outcome only, so the same query,
/// candidates and parameters always give the same candidate (and so the same score).
pub proof fn lemma_match_deterministic(
    q: Song,
    cands: Seq<Song>,
    p: MatchParams,
    r1: Option<int>,
    r2: Option<int>,
)
    requires
        match_outcome(q, cands, p, r1),
        match_outcome(q, cands, p, r2),
    ensures
        r1 == r2,
{
    match (r1, r2) {
        (Some(i), Some(j)) => {
            if i < j {
                if first_immediate(q, cands, p, i) {
                    assert(!first_immediate(q, cands, p, j));
                    assert(!no_immediate(q, cands, p));
                } else {
                    assert(!immediate_at(q, cands, p, j));
                    assert(beats(q, cands, j, i));
                }
            } else if j < i {
                if first_immediate(q, cands, p, j) {
                    assert(!first_immediate(q, cands, p, i));
                    assert(!no_immediate(q, cands, p));
                } else {
                    assert(!immediate_at(q, cands, p, i));
                    assert(beats(q, cands, i, j));
                }
            }
        },
        (Some(i), None) => {
            assert(!immediate_at(q, cands, p, i) && !partial_at(q, cands, p, i));
        },
        (None, Some(j)) => {
            assert(!immediate_at(q, cands, p, j) && !partial_at(q, cands, p, j));
        },
        (None, None) => {},
    }
}

/// A candidate outside the duration tolerance is never the outcome, and its print has no
/// influence: replacing it by any other song outside the tolerance keeps every outcome.
pub proof fn lemma_duration_filter(
    q: Song,
    cands: Seq<Song>,
    p: MatchParams,
    j: int,
    other: Song,
    r: Option<int>,
)
    requires
        0 <= j < cands.len(),
        !within_duration(q, cands[j], p.max_match_duration_diff),
        !within_duration(q, other, p.max_match_duration_diff),
    ensures
        match_outcome(q, cands, p, r) ==> r != Some(j),
        match_outcome(q, cands, p, r) <==> match_outcome(q, cands.update(j, other), p, r),
{
    let c2 = cands.update(j, other);
    assert forall|k: int| 0 <= k < cands.len() implies (immediate_at(q, cands, p, k)
        <==> immediate_at(q, c2, p, k)) && (partial_at(q, cands, p, k) <==> partial_at(
        q,
        c2,
        p,
        k,
    )) by {
        if k != j {
            assert(c2[k] == cands[k]);
        }
    }
    assert forall|a: int, b: int|
        0 <= a < cands.len() && 0 <= b < cands.len() && a != j && b != j implies (beats(
        q,
        cands,
        a,
        b,
    ) <==> beats(q, c2, a, b)) by {
        assert(c2[a] == cands[a]);
        assert(c2[b] == cands[b]);
    }
    if let Some(i) = r {
        if 0 <= i < cands.len() && i != j {
            if best_partial(q, cands, p, i) {
                assert(best_partial(q, c2, p, i));
            }
            if best_partial(q, c2, p, i) {
                assert(best_partial(q, cands, p, i));
            }
        }
    }
}

proof fn lemma_errors_self(a: Seq<i32>, n: int)
    ensures
        errors_upto(a, a, n) == 0,
    decreases n,
{
    if n > 0 {
        lemma_errors_self(a, n - 1);
        let x = a[n - 1];
        assert((x ^ x) as u32 == 0u32) by (bit_vector);
        lemma_popcount_zero(32);
    }
}

proof fn lemma_popcount_zero(n: nat)
    ensures
        popcount_n(0, n) == 0,
    decreases n,
{
    if n > 0 {
        lemma_popcount_zero((n - 1) as nat);
    }
}

/// A song whose print equals the query's and whose duration is within the tolerance scores
/// one, which reaches any threshold in [0, 1]: the outcome is that song, or an earlier
/// confident match.
pub proof fn lemma_self_match(q: Song, cands: Seq<Song>, p: MatchParams, i: int, r: Option<int>)
    requires
        0 <= i < cands.len(),
        cands[i].print@ == q.print@,
        within_duration(q, cands[i], p.max_match_duration_diff),
        p.match_immediate_threshold.wf(),
        match_outcome(q, cands, p, r),
    ensures
        print_errors(q.print@, cands[i].print@) == 0,
        immediate_at(q, cands, p, i),
        r matches Some(j) && j <= i && immediate_at(q, cands, p, j),
        (forall|k: int| 0 <= k < i ==> !immediate_at(q, cands, p, k)) ==> r == Some(i),
{
    lemma_errors_self(q.print@, shared_len(q.print@, q.print@));
    let w = print_words(q.print@, q.print@) as int;
    let t = p.match_immediate_threshold;
    assert((32 * w - 0) * t.den >= t.num * (32 * w)) by (nonlinear_arith)
        requires w > 0, t.num <= t.den;
    assert(immediate_at(q, cands, p, i));
    match r {
        Some(j) => {
            if !first_immediate(q, cands, p, j) {
                assert(!no_immediate(q, cands, p));
            }
            if j > i {
                assert(!first_immediate(q, cands, p, j));
            }
        },
        None => {
            assert(!immediate_at(q, cands, p, i));
        },
    }
}

/// The score of a print against another never falls below zero.
pub proof fn lemma_errors_bound(a: Seq<i32>, b: Seq<i32>)
    ensures
        print_errors(a, b) <= 32 * print_words(a, b),
{
    lemma_errors_upto_bound(a, b, shared_len(a, b));
}

/// With a partial threshold of zero and no confident match, every candidate within the
/// duration tolerance competes, and the outcome is the first one with the highest score.
pub proof fn lemma_zero_partial_threshold(q: Song, cands: Seq<Song>, p: MatchParams, r: Option<int>)
    requires
        p.match_partial_threshold.num == 0,
        no_immediate(q, cands, p),
        match_outcome(q, cands, p, r),
    ensures
        forall|j: int|
            0 <= j < cands.len() && within_duration(q, cands[j], p.max_match_duration_diff)
                ==> partial_at(q, cands, p, j),
        r matches Some(i) ==> {
            &&& 0 <= i < cands.len()
            &&& within_duration(q, cands[i], p.max_match_duration_diff)
            &&& forall|j: int|
                0 <= j < i && within_duration(q, cands[j], p.max_match_duration_diff) ==> beats(
                    q,
                    cands,
                    i,
                    j,
                )
            &&& forall|j: int|
                i < j < cands.len() && within_duration(q, cands[j], p.max_match_duration_diff)
                    ==> !beats(q, cands, j, i)
        },
        r is None ==> forall|j: int|
            0 <= j < cands.len() ==> !within_duration(q, cands[j], p.max_match_duration_diff),
{
    let t = p.match_partial_threshold;
    assert forall|j: int|
        0 <= j < cands.len() && within_duration(
            q,
            cands[j],
            p.max_match_duration_diff,
        ) implies partial_at(q, cands, p, j) by {
        let e = print_errors(q.print@, cands[j].print@) as int;
        let w = print_words(q.print@, cands[j].print@) as int;
        lemma_errors_bound(q.print@, cands[j].print@);
        assert((32 * w - e) * t.den >= 0) by (nonlinear_arith)
            requires e <= 32 * w, t.den >= 0;
    }
    if let Some(i) = r {
        if first_immediate(q, cands, p, i) {
            assert(!no_immediate(q, cands, p) || !immediate_at(q, cands, p, i));
        }
    } else {
        assert forall|j: int| 0 <= j < cands.len() implies !within_duration(
            q,
            cands[j],
            p.max_match_duration_diff,
        ) by {
            assert(!partial_at(q, cands, p, j));
        }
    }
}

/// With well-formed parameters, a candidate that scores below the partial threshold is
/// never the outcome.
pub proof fn lemma_outcome_reaches_partial(q: Song, cands: Seq<Song>, p: MatchParams, i: int)
    requires
        p.wf(),
        match_outcome(q, cands, p, Some(i)),
    ensures
        partial_at(q, cands, p, i),
{
    if first_immediate(q, cands, p, i) {
        let e = print_errors(q.print@, cands[i].print@) as int;
        let w = print_words(q.print@, cands[i].print@) as int;
        lemma_errors_bound(q.print@, cands[i].print@);
        let a = 32 * w - e;
        let b = 32 * w;
        let ni = p.match_immediate_threshold.num as int;
        let di = p.match_immediate_threshold.den as int;
        let np = p.match_partial_threshold.num as int;
        let dp = p.match_partial_threshold.den as int;
        assert(a * di >= ni * b);
        assert(a * dp >= np * b) by (nonlinear_arith)
            requires a * di >= ni * b, np * di <= ni * dp, di > 0, dp > 0, a >= 0, b > 0;
    }
}

proof fn lemma_errors_upto_agree(a1: Seq<i32>, b1: Seq<i32>, a2: Seq<i32>, b2: Seq<i32>, n: int)
    requires
        n <= a1.len(),
        n <= a2.len(),
        n <= b1.len(),
        n <= b2.len(),
        forall|k: int| 0 <= k < n ==> a1[k] == a2[k] && b1[k] == b2[k],
    ensures
        errors_upto(a1, b1, n) == errors_upto(a2, b2, n),
    decreases n,
{
    if n > 0 {
        lemma_errors_upto_agree(a1, b1, a2, b2, n - 1);
    }
}

/// Prints are compared over their shared prefix only: a suffix added to the longer of two
/// prints changes neither the bit errors nor the number of compared words.
pub proof fn lemma_suffix_ignored(a: Seq<i32>, b: Seq<i32>, extra: Seq<i32>)
    requires
        a.len() <= b.len(),
    ensures
        print_errors(a, b + extra) == print_errors(a, b),
        print_words(a, b + extra) == print_words(a, b),
        print_errors(b + extra, a) == print_errors(b, a),
        print_words(b + extra, a) == print_words(b, a),
{
    let n = a.len() as int;
    lemma_errors_upto_agree(a, b + extra, a, b, n);
    lemma_errors_upto_agree(b + extra, a, b, a, n);
}

/// Two one-word prints that differ in `k` bits score exactly `1 - k / 32`.
pub proof fn lemma_one_word_score(x: i32, y: i32)
    ensures
        print_errors(seq![x], seq![y]) == popcount((x ^ y) as u32),
        print_words(seq![x], seq![y]) == 1,
{
    assert(errors_upto(seq![x], seq![y], 1) == errors_upto(seq![x], seq![y], 0) + word_errors(
        x,
        y,
    ));
}

} // verus!
