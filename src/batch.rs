use vstd::prelude::*;

verus! {

/// The text of each line.
pub open spec fn texts(lines: Seq<String>) -> Seq<Seq<char>> {
    lines.map_values(|l: String| l@)
}

/// The lines before the first blank one.
pub open spec fn destination_lines(s: Seq<Seq<char>>) -> Seq<Seq<char>>
    decreases s.len(),
{
    if s.len() == 0 || s[0].len() == 0 {
        Seq::empty()
    } else {
        seq![s[0]] + destination_lines(s.drop_first())
    }
}

/// The lines of `s` that are not blank.
pub open spec fn non_blank_lines(s: Seq<Seq<char>>) -> Seq<Seq<char>>
    decreases s.len(),
{
    if s.len() == 0 {
        Seq::empty()
    } else if s[0].len() == 0 {
        non_blank_lines(s.drop_first())
    } else {
        seq![s[0]] + non_blank_lines(s.drop_first())
    }
}

/// The lines that are not blank after the first blank one.
pub open spec fn source_lines(s: Seq<Seq<char>>) -> Seq<Seq<char>>
    decreases s.len(),
{
    if s.len() == 0 {
        Seq::empty()
    } else if s[0].len() == 0 {
        non_blank_lines(s.drop_first())
    } else {
        source_lines(s.drop_first())
    }
}

/// Splits input lines into the destination batch, the lines before the first blank line,
/// and the source batch, the lines after it that are not blank.
pub fn split_batches(lines: &Vec<String>) -> (r: (Vec<String>, Vec<String>))
    ensures
        texts(r.0@) == destination_lines(texts(lines@)),
        texts(r.1@) == source_lines(texts(lines@)),
{
    let ghost all = texts(lines@);
    let mut dst: Vec<String> = Vec::new();
    let mut src: Vec<String> = Vec::new();
    let mut in_src = false;
    let mut i: usize = 0;
    proof {
        assert(all.skip(0) =~= all);
        assert(texts(dst@) =~= Seq::<Seq<char>>::empty());
        assert(texts(dst@) + destination_lines(all) =~= destination_lines(all));
    }
    while i < lines.len()
        invariant
            all == texts(lines@),
            i <= lines.len(),
            !in_src ==> texts(dst@) + destination_lines(all.skip(i as int)) == destination_lines(
                all,
            ) && src@.len() == 0 && source_lines(all.skip(i as int)) == source_lines(all),
            in_src ==> texts(dst@) == destination_lines(all) && texts(src@) + non_blank_lines(
                all.skip(i as int),
            ) == source_lines(all),
        decreases lines.len() - i,
    {
        let ghost rest = all.skip(i as int);
        assert(rest.drop_first() =~= all.skip(i + 1));
        assert(rest[0] == lines@[i as int]@);
        let line = &lines[i];
        if line.as_str().is_empty() {
            if !in_src {
                assert(destination_lines(rest) =~= Seq::<Seq<char>>::empty());
                assert(texts(dst@) =~= texts(dst@) + Seq::<Seq<char>>::empty());
                assert(texts(src@) =~= Seq::<Seq<char>>::empty());
                assert(texts(src@) + non_blank_lines(all.skip(i + 1)) =~= non_blank_lines(
                    all.skip(i + 1),
                ));
            }
            in_src = true;
        } else {
            let copy = line.clone();
            if in_src {
                let ghost before = texts(src@);
                src.push(copy);
                assert(texts(src@) =~= before.push(line@));
                assert(texts(src@) + non_blank_lines(all.skip(i + 1)) =~= before + non_blank_lines(
                    rest,
                ));
            } else {
                let ghost before = texts(dst@);
                dst.push(copy);
                assert(texts(dst@) =~= before.push(line@));
                assert(texts(dst@) + destination_lines(all.skip(i + 1)) =~= before
                    + destination_lines(rest));
            }
        }
        i = i + 1;
    }
    proof {
        assert(all.skip(i as int) =~= Seq::<Seq<char>>::empty());
        assert(texts(dst@) =~= texts(dst@) + destination_lines(all.skip(i as int)));
        assert(texts(src@) =~= texts(src@) + non_blank_lines(all.skip(i as int)));
        if !in_src {
            assert(texts(src@) =~= Seq::<Seq<char>>::empty());
        }
    }
    (dst, src)
}

} // verus!
