//! Rows: a text line split into cells on a single delimiter character,
//! and cells joined back into a line.
//!
//! No quoting or escaping is recognized: a delimiter character inside a
//! cell's data is indistinguishable from a cell boundary.

use vstd::prelude::*;

verus! {

/// Relies on `String::push`: appends the given character to the string.
pub assume_specification[ String::push ](s: &mut String, ch: char)
    ensures
        final(s)@ == old(s)@.push(ch),
;

/// The cells of `s` split on the delimiter `d`. There is always at least
/// one cell; each delimiter occurrence ends a cell, so a leading, trailing
/// or doubled delimiter contributes an empty cell.
pub open spec fn split_spec(s: Seq<char>, d: char) -> Seq<Seq<char>>
    decreases s.len(),
{
    if s.len() == 0 {
        seq![Seq::<char>::empty()]
    } else if s.last() == d {
        split_spec(s.drop_last(), d).push(Seq::<char>::empty())
    } else {
        let r = split_spec(s.drop_last(), d);
        r.update(r.len() - 1, r.last().push(s.last()))
    }
}

pub proof fn lemma_split_spec_len(s: Seq<char>, d: char)
    ensures
        split_spec(s, d).len() >= 1,
    decreases s.len(),
{
    if s.len() > 0 {
        lemma_split_spec_len(s.drop_last(), d);
    }
}

/// The cells joined by the delimiter `d`: one delimiter between each
/// neighbouring pair of cells, none at the ends.
pub open spec fn join_spec(cells: Seq<Seq<char>>, d: char) -> Seq<char>
    decreases cells.len(),
{
    if cells.len() == 0 {
        Seq::<char>::empty()
    } else if cells.len() == 1 {
        cells[0]
    } else {
        join_spec(cells.drop_last(), d).push(d) + cells.last()
    }
}

/// Split a line into its cells on the delimiter `d`.
pub fn split_cells(line: &str, d: char) -> (cells: Vec<String>)
    ensures
        cells.deep_view() == split_spec(line@, d),
{
    let n = line.unicode_len();
    let mut cells: Vec<String> = Vec::new();
    let mut start: usize = 0;
    let mut i: usize = 0;
    proof {
        assert(cells.deep_view() =~= split_spec(line@.subrange(0, 0), d).drop_last());
        assert(line@.subrange(0, 0) =~= split_spec(line@.subrange(0, 0), d).last());
    }
    while i < n
        invariant
            n == line@.len(),
            start <= i <= n,
            split_spec(line@.subrange(0, i as int), d).len() >= 1,
            cells.deep_view() == split_spec(line@.subrange(0, i as int), d).drop_last(),
            line@.subrange(start as int, i as int) == split_spec(
                line@.subrange(0, i as int),
                d,
            ).last(),
        decreases n - i,
    {
        let ghost pre = line@.subrange(0, i as int);
        let ghost post = line@.subrange(0, i + 1 as int);
        proof {
            assert(post.drop_last() =~= pre);
            assert(post.last() == line@[i as int]);
            lemma_split_spec_len(post, d);
        }
        if line.get_char(i) == d {
            let cell = line.substring_char(start, i).to_owned();
            cells.push(cell);
            proof {
                assert(split_spec(post, d) == split_spec(pre, d).push(Seq::<char>::empty()));
                assert(split_spec(pre, d) =~= split_spec(pre, d).drop_last().push(
                    split_spec(pre, d).last(),
                ));
                assert(cells.deep_view() =~= split_spec(post, d).drop_last());
                assert(line@.subrange(i + 1, i + 1) =~= split_spec(post, d).last());
            }
            start = i + 1;
        } else {
            proof {
                let r = split_spec(pre, d);
                assert(split_spec(post, d) == r.update(r.len() - 1, r.last().push(line@[i as int])));
                assert(split_spec(post, d).drop_last() =~= r.drop_last());
                assert(line@.subrange(start as int, i + 1) =~= line@.subrange(
                    start as int,
                    i as int,
                ).push(line@[i as int]));
            }
        }
        i += 1;
    }
    proof {
        assert(line@.subrange(0, n as int) =~= line@);
    }
    let cell = line.substring_char(start, n).to_owned();
    let ghost prev = cells.deep_view();
    cells.push(cell);
    proof {
        let s = split_spec(line@, d);
        assert(cells.deep_view() =~= prev.push(cell@));
        assert(prev == s.drop_last());
        assert(cell@ == s.last());
        assert(s =~= s.drop_last().push(s.last()));
        assert(cells.deep_view() =~= split_spec(line@, d));
    }
    cells
}

/// Join cells into one line, the delimiter `d` between each pair.
pub fn join_cells(cells: &Vec<String>, d: char) -> (out: String)
    ensures
        out@ == join_spec(cells.deep_view(), d),
{
    let mut out = String::new();
    let mut i: usize = 0;
    proof {
        assert(cells.deep_view().subrange(0, 0) =~= Seq::<Seq<char>>::empty());
    }
    while i < cells.len()
        invariant
            i <= cells.len(),
            out@ == join_spec(cells.deep_view().subrange(0, i as int), d),
        decreases cells.len() - i,
    {
        let ghost pre = cells.deep_view().subrange(0, i as int);
        let ghost post = cells.deep_view().subrange(0, i + 1 as int);
        proof {
            assert(post.drop_last() =~= pre);
            assert(post.last() == cells.deep_view()[i as int]);
            assert(cells.deep_view()[i as int] == cells@[i as int]@);
        }
        if i > 0 {
            out.push(d);
        }
        out.append(cells[i].as_str());
        proof {
            if i == 0 {
                assert(post.len() == 1);
                assert(out@ == post[0]);
            }
        }
        i += 1;
    }
    proof {
        assert(cells.deep_view().subrange(0, cells@.len() as int) =~= cells.deep_view());
    }
    out
}

} // verus!
