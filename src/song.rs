use vstd::prelude::*;

verus! {

/// A song: its duration, its decoded fingerprint and the compressed form it came from.
pub struct Song {
    pub compressed_print: String,
    pub print: Vec<i32>,
    pub duration: i32,
}

/// Why a record line could not become a song.
#[derive(Clone, Copy, Debug, PartialEq, Eq, Structural)]
pub enum SongError {
    /// The line does not hold exactly two space-separated fields.
    FieldCount,
    /// The duration field is not a 32-bit integer.
    BadDuration,
    /// The fingerprint codec could not decode the compressed print.
    Decode,
}

/// Number of spaces among the first `n` characters of `s`.
pub open spec fn spaces_before(s: Seq<char>, n: int) -> nat
    decreases n,
{
    if n <= 0 {
        0
    } else {
        spaces_before(s, n - 1) + (if s[n - 1] == ' ' {
            1nat
        } else {
            0nat
        })
    }
}

/// `k` is the position of the first space of `s`.
pub open spec fn is_first_space(s: Seq<char>, k: int) -> bool {
    0 <= k < s.len() && s[k] == ' ' && spaces_before(s, k) == 0
}

/// A line splits on single spaces into exactly two fields when it holds exactly one space.
pub open spec fn two_fields(s: Seq<char>) -> bool {
    spaces_before(s, s.len() as int) == 1
}

/// The position of the space that separates the two fields of a record.
pub open spec fn separator(s: Seq<char>) -> int {
    choose|k: int| is_first_space(s, k)
}

/// `c` is an ASCII decimal digit.
pub open spec fn is_digit(c: char) -> bool {
    '0' <= c <= '9'
}

/// The value of a string of decimal digits.
pub open spec fn digits_value(s: Seq<char>) -> int
    decreases s.len(),
{
    if s.len() == 0 {
        0
    } else {
        digits_value(s.drop_last()) * 10 + ((s.last() as u32) as int - ('0' as u32) as int)
    }
}

/// `s` holds decimal digits only.
pub open spec fn all_digits(s: Seq<char>) -> bool {
    forall|i: int| 0 <= i < s.len() ==> is_digit(s[i])
}

/// `s` starts with a sign.
pub open spec fn has_sign(s: Seq<char>) -> bool {
    s.len() > 0 && (s[0] == '-' || s[0] == '+')
}

/// The digits of an integer field, after its sign if any.
pub open spec fn unsigned_part(s: Seq<char>) -> Seq<char> {
    if has_sign(s) {
        s.drop_first()
    } else {
        s
    }
}

/// The value written in an integer field, assuming its digits are well formed.
pub open spec fn signed_value(s: Seq<char>) -> int {
    if has_sign(s) && s[0] == '-' {
        -digits_value(unsigned_part(s))
    } else {
        digits_value(unsigned_part(s))
    }
}

/// The 32-bit integer written in `s`: an optional sign and at least one decimal digit.
pub open spec fn parse_duration(s: Seq<char>) -> Option<i32> {
    if unsigned_part(s).len() > 0 && all_digits(unsigned_part(s)) && i32::MIN <= signed_value(s)
        <= i32::MAX {
        Some(signed_value(s) as i32)
    } else {
        None
    }
}

/// What a record line reads as: its duration and its compressed print, or why it cannot.
pub open spec fn record_outcome(s: Seq<char>) -> Result<(i32, Seq<char>), SongError> {
    if !two_fields(s) {
        Err(SongError::FieldCount)
    } else {
        match parse_duration(s.take(separator(s))) {
            Some(d) => Ok((d, s.skip(separator(s) + 1))),
            None => Err(SongError::BadDuration),
        }
    }
}

proof fn lemma_spaces_monotone(s: Seq<char>, a: int, b: int)
    requires
        a <= b,
    ensures
        spaces_before(s, a) <= spaces_before(s, b),
    decreases b - a,
{
    if a < b {
        lemma_spaces_monotone(s, a, b - 1);
    }
}

proof fn lemma_first_space_unique(s: Seq<char>, k: int)
    requires
        is_first_space(s, k),
    ensures
        separator(s) == k,
{
    let j = separator(s);
    assert(is_first_space(s, j));
    if j < k {
        lemma_spaces_monotone(s, j + 1, k);
    } else if k < j {
        lemma_spaces_monotone(s, k + 1, j);
    }
}

/// Reads the integer written in the first `end` characters of `cs`.
fn parse_duration_field(cs: &Vec<char>, end: usize) -> (r: Option<i32>)
    requires
        end <= cs@.len(),
    ensures
        r == parse_duration(cs@.take(end as int)),
{
    let ghost s = cs@.take(end as int);
    let signed = end > 0 && (cs[0] == '-' || cs[0] == '+');
    let negative = signed && cs[0] == '-';
    let start: usize = if signed {
        1
    } else {
        0
    };
    let ghost digits = if signed {
        s.drop_first()
    } else {
        s
    };
    assert(digits =~= cs@.subrange(start as int, end as int));
    assert(s.len() == end);
    assert(end > 0 ==> s[0] == cs@[0]);
    assert(signed == has_sign(s));
    if start == end {
        return None;
    }
    let mut v: i64 = 0;
    let mut big = false;
    let mut i: usize = start;
    while i < end
        invariant
            start < end <= cs@.len(),
            start <= i <= end,
            digits == cs@.subrange(start as int, end as int),
            s == cs@.take(end as int),
            signed == has_sign(s),
            digits == unsigned_part(s),
            forall|j: int| start <= j < i ==> is_digit(cs@[j]),
            !big ==> v == digits_value(cs@.subrange(start as int, i as int)) && 0 <= v
                <= 0x8000_0000,
            big ==> digits_value(cs@.subrange(start as int, i as int)) > 0x8000_0000,
        decreases end - i,
    {
        let c = cs[i];
        if !('0' <= c && c <= '9') {
            proof {
                assert(!is_digit(digits[i - start]));
                assert(!all_digits(digits));
                assert(parse_duration(s) is None);
            }
            return None;
        }
        proof {
            let next = cs@.subrange(start as int, i + 1);
            assert(next.drop_last() =~= cs@.subrange(start as int, i as int));
        }
        if !big {
            let d: i64 = (c as u32 - '0' as u32) as i64;
            let nv: i64 = v * 10 + d;
            if nv > 0x8000_0000 {
                big = true;
            } else {
                v = nv;
            }
        }
        i = i + 1;
    }
    assert(all_digits(digits));
    if big {
        return None;
    }
    if negative {
        let n: i64 = -v;
        if n < -0x8000_0000 {
            None
        } else {
            Some(n as i32)
        }
    } else {
        if v > 0x7fff_ffff {
            None
        } else {
            Some(v as i32)
        }
    }
}

impl Song {
    /// Builds a song from a record line `"<duration> <compressed print>"` and what the
    /// fingerprint codec decoded from that compressed print (`None` when it could not).
    pub fn new(line: &str, decoded: Option<Vec<i32>>) -> (r: Result<Song, SongError>)
        ensures
            match record_outcome(line@) {
                Err(e) => r == Err::<Song, SongError>(e),
                Ok((d, p)) => match decoded {
                    None => r == Err::<Song, SongError>(SongError::Decode),
                    Some(v) => r matches Ok(song) && song.duration == d
                        && song.compressed_print@ == p && song.print@ == v@,
                },
            },
    {
        let (duration, compressed_print) = Song::parse_record(line)?;
        match decoded {
            None => Err(SongError::Decode),
            Some(print) => Ok(Song { compressed_print, print, duration }),
        }
    }

    /// Splits a record line `"<duration> <compressed print>"` into its duration and its
    /// compressed print.
    pub fn parse_record(line: &str) -> (r: Result<(i32, String), SongError>)
        ensures
            match (r, record_outcome(line@)) {
                (Ok((d, p)), Ok((d2, p2))) => d == d2 && p@ == p2,
                (Err(e), Err(e2)) => e == e2,
                _ => false,
            },
    {
        let mut cs: Vec<char> = Vec::new();
        for c in it: line.chars()
            invariant
                cs@ == it.seq().take(it.index()),
        {
            cs.push(c);
            proof {
                assert(cs@ =~= it.seq().take(it.index() + 1));
            }
        }
        proof {
            assert(cs@ =~= line@);
        }
        let n: usize = cs.len();
        let mut count: usize = 0;
        let mut k: usize = 0;
        let mut i: usize = 0;
        while i < n
            invariant
                n == cs@.len(),
                cs@ == line@,
                i <= n,
                count == spaces_before(cs@, i as int),
                count <= i,
                count >= 1 ==> is_first_space(cs@, k as int) && k < i,
            decreases n - i,
        {
            if cs[i] == ' ' {
                if count == 0 {
                    k = i;
                }
                count = count + 1;
            }
            i = i + 1;
        }
        if count != 1 {
            return Err(SongError::FieldCount);
        }
        proof {
            lemma_first_space_unique(cs@, k as int);
        }
        match parse_duration_field(&cs, k) {
            None => Err(SongError::BadDuration),
            Some(d) => {
                let p = line.substring_char(k + 1, n);
                proof {
                    assert(p@ =~= line@.skip(k + 1));
                }
                Ok((d, p.to_owned()))
            },
        }
    }
}

} // verus!
