//! Shared helpers: delimiter aliases and column-range expressions.
//!
//! A column-range expression is a comma-separated list of segments, each
//! either a single column index `N` or a dash-joined pair `N-M` with
//! `N <= M`. Indices are 0-based over the whole row. A malformed segment
//! is a fatal configuration error, never a per-row error.

use crate::rows::split_cells;
use crate::rows::split_spec;
use vstd::prelude::*;

verus! {

/// A fatal error in a configured column-range expression.
#[derive(Clone, Copy, Debug, PartialEq, Eq, Structural)]
pub enum ConfigError {
    /// A bound is empty, not a non-negative decimal number, or too large.
    InvalidBound,
    /// A segment holds more than one dash.
    InvalidSegment,
    /// A dash segment whose lower bound exceeds its upper bound.
    InvertedRange,
}

pub open spec fn is_digit(c: char) -> bool {
    '0' as int <= c as int && c as int <= '9' as int
}

pub open spec fn digit_of(c: char) -> nat {
    (c as int - '0' as int) as nat
}

/// A non-empty, all-decimal-digit string.
pub open spec fn is_digits(s: Seq<char>) -> bool {
    s.len() > 0 && forall|j: int| 0 <= j < s.len() ==> is_digit(s[j])
}

/// The decimal value of a digit string.
pub open spec fn num_of(s: Seq<char>) -> nat
    decreases s.len(),
{
    if s.len() == 0 {
        0
    } else {
        num_of(s.drop_last()) * 10 + digit_of(s.last())
    }
}

proof fn lemma_num_prefix_mono(s: Seq<char>, i: int, j: int)
    requires
        0 <= i <= j <= s.len(),
    ensures
        num_of(s.subrange(0, i)) <= num_of(s.subrange(0, j)),
    decreases j - i,
{
    if i < j {
        lemma_num_prefix_mono(s, i, j - 1);
        assert(s.subrange(0, j).drop_last() =~= s.subrange(0, j - 1));
    }
}

/// Parse a whole string as a non-negative decimal `u32`.
pub fn parse_bound(s: &str) -> (r: Option<u32>)
    ensures
        match r {
            Some(v) => is_digits(s@) && num_of(s@) <= u32::MAX as nat && v as nat == num_of(s@),
            None => !(is_digits(s@) && num_of(s@) <= u32::MAX as nat),
        },
{
    let n = s.unicode_len();
    if n == 0 {
        return None;
    }
    let mut acc: u64 = 0;
    let mut i: usize = 0;
    proof {
        assert(s@.subrange(0, 0) =~= Seq::<char>::empty());
    }
    while i < n
        invariant
            n == s@.len(),
            i <= n,
            acc <= u32::MAX as u64,
            acc as nat == num_of(s@.subrange(0, i as int)),
            forall|j: int| 0 <= j < i ==> is_digit(s@[j]),
        decreases n - i,
    {
        let c = s.get_char(i);
        let cv = c as u32;
        proof {
            assert(s@.subrange(0, i + 1).drop_last() =~= s@.subrange(0, i as int));
            assert(s@.subrange(0, i + 1).last() == s@[i as int]);
        }
        if cv < '0' as u32 || cv > '9' as u32 {
            return None;
        }
        let next: u64 = acc * 10 + ((cv - '0' as u32) as u64);
        if next > u32::MAX as u64 {
            proof {
                lemma_num_prefix_mono(s@, i + 1, n as int);
                assert(s@.subrange(0, n as int) =~= s@);
            }
            return None;
        }
        acc = next;
        i += 1;
    }
    proof {
        assert(s@.subrange(0, n as int) =~= s@);
    }
    Some(acc as u32)
}

/// What one comma-segment of a range expression denotes: a closed interval,
/// or the configuration error it raises.
pub open spec fn seg_result(seg: Seq<char>) -> Result<(u32, u32), ConfigError> {
    let parts = split_spec(seg, '-');
    if parts.len() == 1 {
        if is_digits(parts[0]) && num_of(parts[0]) <= u32::MAX as nat {
            Ok((num_of(parts[0]) as u32, num_of(parts[0]) as u32))
        } else {
            Err(ConfigError::InvalidBound)
        }
    } else if parts.len() == 2 {
        if is_digits(parts[0]) && num_of(parts[0]) <= u32::MAX as nat && is_digits(parts[1])
            && num_of(parts[1]) <= u32::MAX as nat {
            if num_of(parts[0]) <= num_of(parts[1]) {
                Ok((num_of(parts[0]) as u32, num_of(parts[1]) as u32))
            } else {
                Err(ConfigError::InvertedRange)
            }
        } else {
            Err(ConfigError::InvalidBound)
        }
    } else {
        Err(ConfigError::InvalidSegment)
    }
}

/// The intervals denoted by the segments from position `i` on, or the
/// error of the first invalid segment.
pub open spec fn ranges_result_from(segs: Seq<Seq<char>>, i: int) -> Result<
    Seq<(u32, u32)>,
    ConfigError,
>
    decreases segs.len() - i,
{
    if 0 <= i < segs.len() {
        match seg_result(segs[i]) {
            Err(e) => Err(e),
            Ok(iv) => match ranges_result_from(segs, i + 1) {
                Err(e) => Err(e),
                Ok(rest) => Ok(seq![iv] + rest),
            },
        }
    } else {
        Ok(Seq::<(u32, u32)>::empty())
    }
}

/// What a whole range expression denotes: the ordered intervals, or the
/// error of its first invalid segment.
pub open spec fn match_ranges_spec(expr: Seq<char>) -> Result<Seq<(u32, u32)>, ConfigError> {
    ranges_result_from(split_spec(expr, ','), 0)
}

/// Every interval has its lower bound at or below its upper bound.
pub open spec fn ranges_wf(ivs: Seq<(u32, u32)>) -> bool {
    forall|j: int| 0 <= j < ivs.len() ==> ivs[j].0 <= ivs[j].1
}

/// A parsed range expression always yields well-formed intervals.
pub proof fn lemma_parsed_ranges_wf(segs: Seq<Seq<char>>, i: int, ivs: Seq<(u32, u32)>)
    requires
        0 <= i,
        ranges_result_from(segs, i) == Ok::<Seq<(u32, u32)>, ConfigError>(ivs),
    ensures
        ranges_wf(ivs),
    decreases segs.len() - i,
{
    if i < segs.len() {
        let iv = seg_result(segs[i]) ->Ok_0;
        let rest = ranges_result_from(segs, i + 1) ->Ok_0;
        lemma_parsed_ranges_wf(segs, i + 1, rest);
        assert(forall|j: int| 0 <= j < ivs.len() ==> ivs[j] == (seq![iv] + rest)[j]);
    }
}

/// Parse a column-range expression into its ordered closed intervals.
pub fn match_ranges(range_string: &str) -> (r: Result<Vec<(u32, u32)>, ConfigError>)
    ensures
        match r {
            Ok(ivs) => match_ranges_spec(range_string@) == Ok::<Seq<(u32, u32)>, ConfigError>(
                ivs@,
            ),
            Err(e) => match_ranges_spec(range_string@) == Err::<Seq<(u32, u32)>, ConfigError>(e),
        },
{
    let segs = split_cells(range_string, ',');
    let ghost segs_view = segs.deep_view();
    let mut acc: Vec<(u32, u32)> = Vec::new();
    let mut i: usize = 0;
    while i < segs.len()
        invariant
            segs_view == segs.deep_view(),
            segs_view == split_spec(range_string@, ','),
            i <= segs.len(),
            match ranges_result_from(segs_view, i as int) {
                Ok(rest) => ranges_result_from(segs_view, 0) == Ok::<Seq<(u32, u32)>, ConfigError>(
                    acc@ + rest,
                ),
                Err(e) => ranges_result_from(segs_view, 0) == Err::<Seq<(u32, u32)>, ConfigError>(
                    e,
                ),
            },
        decreases segs.len() - i,
    {
        proof {
            assert(segs_view[i as int] == segs@[i as int]@);
        }
        let ghost seg = segs_view[i as int];
        let parts = split_cells(segs[i].as_str(), '-');
        let ghost partsv = split_spec(seg, '-');
        proof {
            assert(parts.deep_view() == partsv);
            assert(partsv.len() == parts@.len());
            if parts@.len() >= 1 {
                assert(partsv[0] == parts@[0]@);
            }
            if parts@.len() >= 2 {
                assert(partsv[1] == parts@[1]@);
            }
        }
        let seg_iv: (u32, u32);
        if parts.len() == 1 {
            match parse_bound(parts[0].as_str()) {
                Some(v) => {
                    seg_iv = (v, v);
                },
                None => {
                    proof {
                        assert(seg_result(seg) == Err::<(u32, u32), ConfigError>(
                            ConfigError::InvalidBound,
                        ));
                    }
                    return Err(ConfigError::InvalidBound);
                },
            }
        } else if parts.len() == 2 {
            let lo = parse_bound(parts[0].as_str());
            let hi = parse_bound(parts[1].as_str());
            match (lo, hi) {
                (Some(l), Some(h)) => {
                    if l <= h {
                        seg_iv = (l, h);
                    } else {
                        proof {
                            assert(seg_result(seg) == Err::<(u32, u32), ConfigError>(
                                ConfigError::InvertedRange,
                            ));
                        }
                        return Err(ConfigError::InvertedRange);
                    }
                },
                _ => {
                    proof {
                        assert(seg_result(seg) == Err::<(u32, u32), ConfigError>(
                            ConfigError::InvalidBound,
                        ));
                    }
                    return Err(ConfigError::InvalidBound);
                },
            }
        } else {
            proof {
                assert(seg_result(seg) == Err::<(u32, u32), ConfigError>(
                    ConfigError::InvalidSegment,
                ));
            }
            return Err(ConfigError::InvalidSegment);
        }
        proof {
            assert(seg_result(segs_view[i as int]) == Ok::<(u32, u32), ConfigError>(seg_iv));
            match ranges_result_from(segs_view, i + 1) {
                Ok(rest) => {
                    assert(acc@ + (seq![seg_iv] + rest) =~= acc@.push(seg_iv) + rest);
                },
                Err(_) => {},
            }
        }
        acc.push(seg_iv);
        i += 1;
    }
    proof {
        assert(acc@ + Seq::<(u32, u32)>::empty() =~= acc@);
    }
    Ok(acc)
}

/// The columns one interval selects from a row, in ascending column order.
pub open spec fn interval_cells(row: Seq<Seq<char>>, iv: (u32, u32)) -> Seq<Seq<char>> {
    row.subrange(iv.0 as int, iv.1 as int + 1)
}

/// Every interval's upper bound lies inside the row.
pub open spec fn in_bounds(row: Seq<Seq<char>>, ivs: Seq<(u32, u32)>) -> bool {
    forall|j: int| 0 <= j < ivs.len() ==> (ivs[j].1 as int) < row.len()
}

/// The cells the intervals select, in interval order; an interval
/// contributes its columns in ascending order.
pub open spec fn extract_spec(row: Seq<Seq<char>>, ivs: Seq<(u32, u32)>) -> Seq<Seq<char>>
    decreases ivs.len(),
{
    if ivs.len() == 0 {
        Seq::<Seq<char>>::empty()
    } else {
        extract_spec(row, ivs.drop_last()) + interval_cells(row, ivs.last())
    }
}

/// How many cells the intervals select.
pub open spec fn width_of(ivs: Seq<(u32, u32)>) -> nat
    decreases ivs.len(),
{
    if ivs.len() == 0 {
        0
    } else {
        width_of(ivs.drop_last()) + (ivs.last().1 - ivs.last().0 + 1) as nat
    }
}

/// Extract the configured column ranges from a row. Returns nothing when
/// some interval reaches past the row's width: with rows of varying width
/// this is a per-row condition, not a configuration error.
pub fn extract_ranges(line: &Vec<String>, ranges: &Vec<(u32, u32)>) -> (r: Option<Vec<String>>)
    requires
        ranges_wf(ranges@),
    ensures
        r is Some <==> in_bounds(line.deep_view(), ranges@),
        (r matches Some(cells) ==> cells.deep_view() == extract_spec(line.deep_view(), ranges@)),
{
    let ghost row = line.deep_view();
    let row_n = line.len();
    let mut j: usize = 0;
    while j < ranges.len()
        invariant
            j <= ranges@.len(),
            row == line.deep_view(),
            row_n == line@.len(),
            forall|k: int| 0 <= k < j ==> (ranges@[k].1 as int) < row.len(),
        decreases ranges@.len() - j,
    {
        if ranges[j].1 as u64 >= row_n as u64 {
            return None;
        }
        j += 1;
    }
    let mut cells: Vec<String> = Vec::new();
    let mut j: usize = 0;
    proof {
        assert(cells.deep_view() =~= extract_spec(row, ranges@.subrange(0, 0)));
    }
    while j < ranges.len()
        invariant
            j <= ranges@.len(),
            row == line.deep_view(),
            row_n == line@.len(),
            ranges_wf(ranges@),
            in_bounds(row, ranges@),
            cells.deep_view() == extract_spec(row, ranges@.subrange(0, j as int)),
        decreases ranges@.len() - j,
    {
        let (lo, hi) = ranges[j];
        let ghost pre = ranges@.subrange(0, j as int);
        let ghost post = ranges@.subrange(0, j + 1 as int);
        proof {
            assert(post.drop_last() =~= pre);
            assert(post.last() == ranges@[j as int]);
        }
        let hi_us = hi as usize;
        let mut c: usize = lo as usize;
        proof {
            assert(row.subrange(lo as int, c as int) =~= Seq::<Seq<char>>::empty());
            assert(cells.deep_view() + row.subrange(lo as int, c as int) =~= cells.deep_view());
        }
        while c <= hi_us
            invariant
                row == line.deep_view(),
                row_n == line@.len(),
                lo as int <= c as int <= hi as int + 1,
                hi_us == hi as usize,
                (hi as int) < row.len(),
                hi_us < row_n,
                cells.deep_view() == extract_spec(row, pre) + row.subrange(lo as int, c as int),
            decreases hi_us + 1 - c,
        {
            let ghost prev = cells.deep_view();
            let cell = line[c].clone();
            cells.push(cell);
            proof {
                assert(cells.deep_view() =~= prev.push(row[c as int]));
                assert(row.subrange(lo as int, c as int).push(row[c as int]) =~= row.subrange(
                    lo as int,
                    c + 1,
                ));
                assert(prev.push(row[c as int]) =~= extract_spec(row, pre) + row.subrange(
                    lo as int,
                    c + 1,
                ));
            }
            c += 1;
        }
        proof {
            assert(extract_spec(row, post) == extract_spec(row, pre) + interval_cells(
                row,
                ranges@[j as int],
            ));
        }
        j += 1;
    }
    proof {
        assert(ranges@.subrange(0, ranges@.len() as int) =~= ranges@);
    }
    Some(cells)
}

/// One empty cell for each column the intervals would select.
pub open spec fn blanks_of(ivs: Seq<(u32, u32)>) -> Seq<Seq<char>> {
    Seq::new(width_of(ivs), |i: int| Seq::<char>::empty())
}

/// Build the run of empty placeholder cells whose width matches what the
/// intervals would have extracted.
pub fn blank_cells(ranges: &Vec<(u32, u32)>) -> (out: Vec<String>)
    requires
        ranges_wf(ranges@),
    ensures
        out.deep_view() == blanks_of(ranges@),
        out@.len() == width_of(ranges@),
{
    let mut out: Vec<String> = Vec::new();
    let mut j: usize = 0;
    proof {
        assert(ranges@.subrange(0, 0) =~= Seq::<(u32, u32)>::empty());
    }
    while j < ranges.len()
        invariant
            j <= ranges@.len(),
            ranges_wf(ranges@),
            out.deep_view().len() == width_of(ranges@.subrange(0, j as int)),
            forall|k: int| 0 <= k < out@.len() ==> out.deep_view()[k] == Seq::<char>::empty(),
        decreases ranges@.len() - j,
    {
        let (lo, hi) = ranges[j];
        let ghost pre = ranges@.subrange(0, j as int);
        let ghost post = ranges@.subrange(0, j + 1 as int);
        proof {
            assert(post.drop_last() =~= pre);
            assert(post.last() == ranges@[j as int]);
        }
        let mut c: u64 = lo as u64;
        while c <= hi as u64
            invariant
                lo as u64 <= c <= hi as u64 + 1,
                out.deep_view().len() == width_of(pre) + (c - lo as u64),
                forall|k: int| 0 <= k < out@.len() ==> out.deep_view()[k] == Seq::<char>::empty(),
        decreases hi as u64 + 1 - c,
        {
            let ghost prev = out.deep_view();
            out.push(String::new());
            proof {
                assert(out.deep_view() =~= prev.push(Seq::<char>::empty()));
            }
            c += 1;
        }
        j += 1;
    }
    proof {
        assert(ranges@.subrange(0, ranges@.len() as int) =~= ranges@);
        assert(out.deep_view() =~= blanks_of(ranges@));
    }
    out
}

/// The cell at offset `k` inside the block that interval `j` contributes
/// to an extraction.
pub open spec fn extracted_cell(row: Seq<Seq<char>>, ivs: Seq<(u32, u32)>, j: int, k: int) -> Seq<
    char,
> {
    extract_spec(row, ivs)[width_of(ivs.subrange(0, j)) + k]
}

proof fn lemma_width_snoc(ivs: Seq<(u32, u32)>, j: int)
    requires
        0 <= j < ivs.len(),
    ensures
        width_of(ivs.subrange(0, j + 1)) == width_of(ivs.subrange(0, j)) + (ivs[j].1 - ivs[j].0
            + 1) as nat,
{
    assert(ivs.subrange(0, j + 1).drop_last() =~= ivs.subrange(0, j));
    assert(ivs.subrange(0, j + 1).last() == ivs[j]);
}

proof fn lemma_width_prefix_mono(ivs: Seq<(u32, u32)>, a: int, b: int)
    requires
        ranges_wf(ivs),
        0 <= a <= b <= ivs.len(),
    ensures
        width_of(ivs.subrange(0, a)) <= width_of(ivs.subrange(0, b)),
    decreases b - a,
{
    if a < b {
        lemma_width_prefix_mono(ivs, a, b - 1);
        lemma_width_snoc(ivs, b - 1);
    }
}

proof fn lemma_extract_interval_positions(row: Seq<Seq<char>>, ivs: Seq<(u32, u32)>)
    requires
        ranges_wf(ivs),
        in_bounds(row, ivs),
    ensures
        extract_spec(row, ivs).len() == width_of(ivs),
        forall|j: int, k: int|
            0 <= j < ivs.len() && 0 <= k <= ivs[j].1 - ivs[j].0 ==> #[trigger] extracted_cell(
                row,
                ivs,
                j,
                k,
            ) == row[ivs[j].0 + k],
    decreases ivs.len(),
{
    if ivs.len() > 0 {
        let dl = ivs.drop_last();
        let n = ivs.len() as int;
        assert(forall|j: int| 0 <= j < dl.len() ==> dl[j] == ivs[j]);
        lemma_extract_interval_positions(row, dl);
        assert(dl =~= ivs.subrange(0, n - 1));
        assert forall|j: int, k: int|
            0 <= j < ivs.len() && 0 <= k <= ivs[j].1 - ivs[j].0 implies extracted_cell(
            row,
            ivs,
            j,
            k,
        ) == row[ivs[j].0 + k] by {
            assert(extract_spec(row, ivs) == extract_spec(row, dl) + interval_cells(
                row,
                ivs.last(),
            ));
            if j < n - 1 {
                assert(ivs.subrange(0, j) =~= dl.subrange(0, j));
                lemma_width_snoc(dl, j);
                lemma_width_prefix_mono(dl, j + 1, dl.len() as int);
                assert(dl.subrange(0, dl.len() as int) =~= dl);
                assert(width_of(dl.subrange(0, j)) + k < width_of(dl.subrange(0, j + 1)));
                assert(width_of(ivs.subrange(0, j)) + k < width_of(dl));
                assert(extracted_cell(row, ivs, j, k) == extract_spec(row, dl)[width_of(
                    dl.subrange(0, j),
                ) + k]);
                assert(extracted_cell(row, dl, j, k) == row[dl[j].0 + k]);
            } else {
                assert(j == n - 1);
                assert(ivs.subrange(0, j) =~= dl);
                assert(ivs.last() == ivs[j]);
                assert(interval_cells(row, ivs.last())[k] == row[ivs[j].0 + k]);
                assert(extracted_cell(row, ivs, j, k) == interval_cells(row, ivs.last())[k]);
            }
        }
    }
}

/// Extraction on a row wide enough for every interval yields one cell
/// per selected column.
pub proof fn lemma_extract_len(row: Seq<Seq<char>>, ivs: Seq<(u32, u32)>)
    requires
        ranges_wf(ivs),
        in_bounds(row, ivs),
    ensures
        extract_spec(row, ivs).len() == width_of(ivs),
{
    lemma_extract_interval_positions(row, ivs);
}

/// For any range expression that parses, extraction on a row wide enough
/// for every interval returns the cells in interval order, each interval
/// contributing its upper bound minus its lower bound plus one cells, in
/// ascending column order.
pub proof fn lemma_parse_then_extract(expr: Seq<char>, ivs: Seq<(u32, u32)>, row: Seq<Seq<char>>)
    requires
        match_ranges_spec(expr) == Ok::<Seq<(u32, u32)>, ConfigError>(ivs),
        in_bounds(row, ivs),
    ensures
        ranges_wf(ivs),
        extract_spec(row, ivs).len() == width_of(ivs),
        forall|j: int, k: int|
            0 <= j < ivs.len() && 0 <= k <= ivs[j].1 - ivs[j].0 ==> #[trigger] extracted_cell(
                row,
                ivs,
                j,
                k,
            ) == row[ivs[j].0 + k],
{
    lemma_parsed_ranges_wf(split_spec(expr, ','), 0, ivs);
    lemma_extract_interval_positions(row, ivs);
}

/// What a delimiter alias stands for: `tsv` is a tab, `csv` a comma,
/// `psv` a pipe; anything else falls back to the default comma.
pub open spec fn spec_delimiter(alias: Seq<char>) -> char {
    if alias == "tsv"@ {
        '\t'
    } else if alias == "csv"@ {
        ','
    } else if alias == "psv"@ {
        '|'
    } else {
        ','
    }
}

/// Character-by-character string equality, stated over the views.
pub fn str_eq(a: &str, b: &str) -> (r: bool)
    ensures
        r == (a@ == b@),
{
    let an = a.unicode_len();
    let bn = b.unicode_len();
    if an != bn {
        return false;
    }
    let mut i: usize = 0;
    while i < an
        invariant
            an == a@.len(),
            an == b@.len(),
            i <= an,
            forall|j: int| 0 <= j < i ==> a@[j] == b@[j],
        decreases an - i,
    {
        if a.get_char(i) != b.get_char(i) {
            return false;
        }
        i += 1;
    }
    proof {
        assert(a@ =~= b@);
    }
    true
}

/// Turn a configured delimiter alias into the delimiter character.
pub fn parse_delimiter(alias: &str) -> (d: char)
    ensures
        d == spec_delimiter(alias@),
{
    if str_eq(alias, "tsv") {
        '\t'
    } else if str_eq(alias, "csv") {
        ','
    } else if str_eq(alias, "psv") {
        '|'
    } else {
        ','
    }
}

} // verus!
