//! One configured mapping file: delimiter, key columns, match ranges and
//! a resolution mode, with a single lookup operation.
//!
//! Three modes answer a lookup:
//! - streaming: scan the file's lines from the start, first match wins;
//! - preloaded: a key-to-row map built in one pass, keeping the first
//!   line of each key, so that it answers exactly as streaming does;
//! - cached: consult a bounded FIFO cache first, fall back to a scan on a
//!   miss, and insert the matched row for later hits. Unmatched keys are
//!   not cached.

use crate::cache::FiloCache;
use crate::cache::MappingCache;
use crate::cache::fifo_put_entries;
use crate::cache::lookup_model;
use crate::helpers::ConfigError;
use crate::helpers::extract_ranges;
use crate::helpers::extract_spec;
use crate::helpers::in_bounds;
use crate::helpers::blank_cells;
use crate::helpers::blanks_of;
use crate::helpers::width_of;
use crate::helpers::lemma_parsed_ranges_wf;
use crate::helpers::match_ranges;
use crate::helpers::match_ranges_spec;
use crate::helpers::ranges_wf;
use crate::helpers::str_eq;
use crate::rows::split_cells;
use crate::rows::split_spec;
use vstd::prelude::*;

verus! {

/// The resolution state a mapping file is in.
pub enum ModeModel {
    /// Scan the file's lines on every lookup.
    Streaming,
    /// A key-to-row map holding, for each key, its first line of the file.
    Preloaded { entries: Seq<(Seq<char>, Seq<Seq<char>>)> },
    /// A bounded FIFO cache, lazily filled by lookups that matched.
    Cached { capacity: int, entries: Seq<(Seq<char>, Seq<Seq<char>>)> },
}

/// The abstract state of one mapping file.
pub struct MapModel {
    pub delimiter: char,
    pub source_key_index: int,
    pub target_key_index: int,
    pub ranges: Seq<(u32, u32)>,
    pub mode: ModeModel,
}

/// The cell of a row at a column index, or nothing when the row is too
/// short.
pub open spec fn key_cell(row: Seq<Seq<char>>, idx: int) -> Option<Seq<char>> {
    if 0 <= idx < row.len() {
        Some(row[idx])
    } else {
        None
    }
}

/// The first line whose key cell equals `key`, as a split row. A line too
/// short to have a key cell never matches.
pub open spec fn first_match_row(
    lines: Seq<Seq<char>>,
    d: char,
    tki: int,
    key: Seq<char>,
) -> Option<Seq<Seq<char>>>
    decreases lines.len(),
{
    if lines.len() == 0 {
        None
    } else {
        let row = split_spec(lines.first(), d);
        if key_cell(row, tki) == Some(key) {
            Some(row)
        } else {
            first_match_row(lines.drop_first(), d, tki, key)
        }
    }
}

/// Extraction that degrades to a miss when the matched row is too narrow
/// for some interval.
pub open spec fn extract_opt(row: Seq<Seq<char>>, ivs: Seq<(u32, u32)>) -> Option<Seq<Seq<char>>> {
    if in_bounds(row, ivs) {
        Some(extract_spec(row, ivs))
    } else {
        None
    }
}

/// What a streaming scan answers: the match ranges of the first matching
/// line, or nothing.
pub open spec fn streaming_resolve(
    lines: Seq<Seq<char>>,
    d: char,
    tki: int,
    ranges: Seq<(u32, u32)>,
    key: Seq<char>,
) -> Option<Seq<Seq<char>>> {
    match first_match_row(lines, d, tki, key) {
        Some(row) => extract_opt(row, ranges),
        None => None,
    }
}

/// What a lookup in a key-to-row entry list answers.
pub open spec fn preloaded_resolve(
    entries: Seq<(Seq<char>, Seq<Seq<char>>)>,
    ranges: Seq<(u32, u32)>,
    key: Seq<char>,
) -> Option<Seq<Seq<char>>> {
    match lookup_model(entries, key) {
        Some(row) => extract_opt(row, ranges),
        None => None,
    }
}

/// The key-to-row entries one full pass over the file builds: each line's
/// key cell maps to its split row, and the first line of a key wins, so
/// preloading answers as streaming does. Lines too short for a key cell
/// are skipped.
pub open spec fn preload_entries(lines: Seq<Seq<char>>, d: char, tki: int) -> Seq<
    (Seq<char>, Seq<Seq<char>>),
>
    decreases lines.len(),
{
    if lines.len() == 0 {
        Seq::<(Seq<char>, Seq<Seq<char>>)>::empty()
    } else {
        let prev = preload_entries(lines.drop_last(), d, tki);
        let row = split_spec(lines.last(), d);
        match key_cell(row, tki) {
            Some(k) => if lookup_model(prev, k) is None {
                prev.push((k, row))
            } else {
                prev
            },
            None => prev,
        }
    }
}

/// What one lookup answers, given the mapping file's state and the file's
/// lines.
pub open spec fn resolve_model(m: MapModel, lines: Seq<Seq<char>>, key: Seq<char>) -> Option<
    Seq<Seq<char>>,
> {
    match m.mode {
        ModeModel::Streaming => streaming_resolve(lines, m.delimiter, m.target_key_index, m.ranges, key),
        ModeModel::Preloaded { entries } => preloaded_resolve(entries, m.ranges, key),
        ModeModel::Cached { capacity, entries } => match lookup_model(entries, key) {
            Some(row) => extract_opt(row, m.ranges),
            None => streaming_resolve(lines, m.delimiter, m.target_key_index, m.ranges, key),
        },
    }
}

/// The mapping file's state after one lookup: only a cached mode changes,
/// and only on a miss whose scan found a row, which is then inserted
/// under the looked-up key.
pub open spec fn step_model(m: MapModel, lines: Seq<Seq<char>>, key: Seq<char>) -> MapModel {
    match m.mode {
        ModeModel::Cached { capacity, entries } => match lookup_model(entries, key) {
            Some(_) => m,
            None => match first_match_row(lines, m.delimiter, m.target_key_index, key) {
                Some(row) => (MapModel {
                    mode: ModeModel::Cached {
                        capacity,
                        entries: fifo_put_entries(entries, capacity, key, row),
                    },
                    ..m
                }),
                None => m,
            },
        },
        _ => m,
    }
}

/// One configured secondary file and its resolution state.
pub struct MappingFile {
    pub filename: String,
    pub delimiter: char,
    pub source_key_index: u64,
    pub target_key_index: u64,
    pub target_match_ranges: Vec<(u32, u32)>,
    pub cache: FiloCache,
    pub cache_enabled: bool,
    pub preloaded: Vec<(String, Vec<String>)>,
    pub preload_enabled: bool,
}

impl MappingFile {
    /// The mapping file's abstract state.
    pub open spec fn model(&self) -> MapModel {
        MapModel {
            delimiter: self.delimiter,
            source_key_index: self.source_key_index as int,
            target_key_index: self.target_key_index as int,
            ranges: self.target_match_ranges@,
            mode: if self.preload_enabled {
                ModeModel::Preloaded { entries: self.preloaded.deep_view() }
            } else if self.cache_enabled {
                ModeModel::Cached {
                    capacity: self.cache.capacity_model(),
                    entries: self.cache.entries_model(),
                }
            } else {
                ModeModel::Streaming
            },
        }
    }

    /// Well-formedness: the parsed intervals are ordered pairs and the
    /// cache is well formed.
    pub open spec fn inv(&self) -> bool {
        &&& self.cache.inv()
        &&& ranges_wf(self.model().ranges)
    }

    /// Configure a mapping file in streaming mode, parsing its match-range
    /// expression; a malformed expression is a fatal configuration error.
    pub fn new(
        filename: &str,
        delimiter: char,
        source_key_index: u64,
        target_key_index: u64,
        target_match_ranges: &str,
    ) -> (r: Result<MappingFile, ConfigError>)
        ensures
            match r {
                Ok(m) => {
                    &&& m.inv()
                    &&& m.filename@ == filename@
                    &&& m.delimiter == delimiter
                    &&& m.source_key_index == source_key_index
                    &&& m.target_key_index == target_key_index
                    &&& match_ranges_spec(target_match_ranges@) == Ok::<
                        Seq<(u32, u32)>,
                        ConfigError,
                    >(m.model().ranges)
                    &&& m.model().mode == ModeModel::Streaming
                },
                Err(e) => match_ranges_spec(target_match_ranges@) == Err::<
                    Seq<(u32, u32)>,
                    ConfigError,
                >(e),
            },
    {
        let ranges = match match_ranges(target_match_ranges) {
            Ok(v) => v,
            Err(e) => {
                return Err(e);
            },
        };
        proof {
            lemma_parsed_ranges_wf(split_spec(target_match_ranges@, ','), 0, ranges@);
        }
        Ok(
            MappingFile {
                filename: filename.to_owned(),
                delimiter,
                source_key_index,
                target_key_index,
                target_match_ranges: ranges,
                cache: FiloCache::new(0),
                cache_enabled: false,
                preloaded: Vec::new(),
                preload_enabled: false,
            },
        )
    }

    /// Switch to cached resolution with an empty bounded cache: FIFO
    /// eviction under the method name `filo` with the given capacity, and
    /// a cache that retains nothing under any other method name.
    pub fn cache(&mut self, method: &str, size: i64)
        requires
            old(self).inv(),
            size >= 0,
        ensures
            final(self).inv(),
            final(self).filename == old(self).filename,
            final(self).delimiter == old(self).delimiter,
            final(self).source_key_index == old(self).source_key_index,
            final(self).target_key_index == old(self).target_key_index,
            final(self).model() == (MapModel {
                mode: ModeModel::Cached {
                    capacity: if method@ == "filo"@ {
                        size as int
                    } else {
                        0
                    },
                    entries: Seq::<(Seq<char>, Seq<Seq<char>>)>::empty(),
                },
                ..old(self).model()
            }),
    {
        if str_eq(method, "filo") {
            self.cache = FiloCache::new(size);
        } else {
            self.cache = FiloCache::new(0);
        }
        self.cache_enabled = true;
        self.preload_enabled = false;
    }

    /// Switch to preloaded resolution: one full pass over the file's
    /// lines builds the key-to-row map, first line of each key winning.
    pub fn load_into_memory(&mut self, lines: &Vec<String>)
        requires
            old(self).inv(),
        ensures
            final(self).inv(),
            final(self).filename == old(self).filename,
            final(self).delimiter == old(self).delimiter,
            final(self).source_key_index == old(self).source_key_index,
            final(self).target_key_index == old(self).target_key_index,
            final(self).model() == (MapModel {
                mode: ModeModel::Preloaded {
                    entries: preload_entries(
                        lines.deep_view(),
                        old(self).delimiter,
                        old(self).target_key_index as int,
                    ),
                },
                ..old(self).model()
            }),
    {
        let ghost lv = lines.deep_view();
        let d = self.delimiter;
        let tki_u = self.target_key_index;
        let ghost tki = tki_u as int;
        let mut entries: Vec<(String, Vec<String>)> = Vec::new();
        let mut i: usize = 0;
        proof {
            assert(entries.deep_view() =~= preload_entries(lv.take(0), d, tki));
        }
        while i < lines.len()
            invariant
                i <= lines@.len(),
                lv == lines.deep_view(),
                tki == tki_u as int,
                entries.deep_view() == preload_entries(lv.take(i as int), d, tki),
            decreases lines@.len() - i,
        {
            let ghost pre = lv.take(i as int);
            let ghost post = lv.take(i + 1 as int);
            proof {
                assert(post.drop_last() =~= pre);
                assert(post.last() == lv[i as int]);
                assert(lines@[i as int]@ == lv[i as int]);
            }
            let row = split_cells(lines[i].as_str(), d);
            let ghost rowv = split_spec(lv[i as int], d);
            if tki_u < row.len() as u64 {
                let idx = tki_u as usize;
                let k = row[idx].clone();
                proof {
                    assert(row.deep_view()[tki] == row@[tki]@);
                    assert(key_cell(rowv, tki) == Some(k@));
                }
                let ghost prev_entries = entries.deep_view();
                if lookup_entries(&entries, k.as_str()).is_none() {
                    entries.push((k, row));
                    proof {
                        assert(entries.deep_view() =~= prev_entries.push((k@, rowv)));
                    }
                }
            } else {
                proof {
                    assert(key_cell(rowv, tki) is None);
                }
            }
            i += 1;
        }
        proof {
            assert(lv.take(lines@.len() as int) =~= lv);
        }
        self.preloaded = entries;
        self.preload_enabled = true;
    }

    /// Append one empty placeholder cell for each column the match range
    /// would have extracted, preserving the per-source column width.
    pub fn push_placeholders(&self, out: &mut Vec<String>)
        requires
            self.inv(),
        ensures
            final(out).deep_view() == old(out).deep_view() + blanks_of(self.model().ranges),
            final(out)@.len() == old(out)@.len() + width_of(self.model().ranges),
    {
        let mut blanks = blank_cells(&self.target_match_ranges);
        let ghost prev = out.deep_view();
        let ghost bl = blanks.deep_view();
        out.append(&mut blanks);
        proof {
            assert(out.deep_view() =~= prev + bl);
        }
    }

    /// Resolve a source key against this mapping file, given the file's
    /// lines: the extracted match-range columns of the first matching
    /// line (through cache or preload as configured), or nothing.
    pub fn find_match(&mut self, source_key: &str, lines: &Vec<String>) -> (r: Option<Vec<String>>)
        requires
            old(self).inv(),
        ensures
            final(self).inv(),
            final(self).filename == old(self).filename,
            final(self).delimiter == old(self).delimiter,
            final(self).source_key_index == old(self).source_key_index,
            final(self).target_key_index == old(self).target_key_index,
            final(self).model() == step_model(old(self).model(), lines.deep_view(), source_key@),
            match r {
                Some(cols) => resolve_model(old(self).model(), lines.deep_view(), source_key@)
                    == Some(cols.deep_view()),
                None => resolve_model(old(self).model(), lines.deep_view(), source_key@) is None,
            },
    {
        if self.preload_enabled {
            let r = match lookup_entries(&self.preloaded, source_key) {
                Some(row) => extract_ranges(row, &self.target_match_ranges),
                None => None,
            };
            r
        } else if self.cache_enabled {
            let hit = self.cache.get(source_key.to_owned());
            match hit {
                Some(row) => {
                    return extract_ranges(row, &self.target_match_ranges);
                },
                None => {},
            }
            match scan_lines(lines, self.delimiter, self.target_key_index, source_key) {
                Some(row) => {
                    let extracted = extract_ranges(&row, &self.target_match_ranges);
                    let _ = self.cache.put(source_key.to_owned(), row);
                    extracted
                },
                None => None,
            }
        } else {
            match scan_lines(lines, self.delimiter, self.target_key_index, source_key) {
                Some(row) => extract_ranges(&row, &self.target_match_ranges),
                None => None,
            }
        }
    }
}

/// Find the most recent entry stored under `key`, as `lookup_model` does.
fn lookup_entries<'a>(entries: &'a Vec<(String, Vec<String>)>, key: &str) -> (r: Option<
    &'a Vec<String>,
>)
    ensures
        match r {
            Some(v) => lookup_model(entries.deep_view(), key@) == Some(v.deep_view()),
            None => lookup_model(entries.deep_view(), key@) is None,
        },
{
    let ghost ev = entries.deep_view();
    let mut j: usize = entries.len();
    proof {
        assert(ev.take(j as int) =~= ev);
    }
    while j > 0
        invariant
            j <= entries@.len(),
            ev == entries.deep_view(),
            lookup_model(ev, key@) == lookup_model(ev.take(j as int), key@),
        decreases j,
    {
        j -= 1;
        proof {
            assert(ev[j as int] == (entries@[j as int].0@, entries@[j as int].1.deep_view()));
            assert(ev.take(j + 1).drop_last() =~= ev.take(j as int));
            assert(ev.take(j + 1).last() == ev[j as int]);
        }
        if str_eq(entries[j].0.as_str(), key) {
            return Some(&entries[j].1);
        }
    }
    proof {
        assert(ev.take(0) =~= Seq::<(Seq<char>, Seq<Seq<char>>)>::empty());
    }
    None
}

/// Scan lines in order for the first whose key cell equals `key`,
/// returning its full split row.
fn scan_lines(lines: &Vec<String>, d: char, target_key_index: u64, key: &str) -> (r: Option<
    Vec<String>,
>)
    ensures
        match r {
            Some(row) => first_match_row(lines.deep_view(), d, target_key_index as int, key@)
                == Some(row.deep_view()),
            None => first_match_row(lines.deep_view(), d, target_key_index as int, key@) is None,
        },
{
    let ghost lv = lines.deep_view();
    let ghost tki = target_key_index as int;
    let mut i: usize = 0;
    proof {
        assert(lv.skip(0) =~= lv);
    }
    while i < lines.len()
        invariant
            i <= lines@.len(),
            lv == lines.deep_view(),
            tki == target_key_index as int,
            first_match_row(lv, d, tki, key@) == first_match_row(lv.skip(i as int), d, tki, key@),
        decreases lines@.len() - i,
    {
        proof {
            assert(lines@[i as int]@ == lv[i as int]);
            assert(lv.skip(i as int).first() == lv[i as int]);
            assert(lv.skip(i as int).drop_first() =~= lv.skip(i + 1));
        }
        let row = split_cells(lines[i].as_str(), d);
        let ghost rowv = split_spec(lv[i as int], d);
        if target_key_index < row.len() as u64 {
            let idx = target_key_index as usize;
            proof {
                assert(row.deep_view()[tki] == row@[tki]@);
            }
            if str_eq(row[idx].as_str(), key) {
                proof {
                    assert(key_cell(rowv, tki) == Some(key@));
                }
                return Some(row);
            }
        }
        proof {
            assert(key_cell(rowv, tki) != Some(key@));
        }
        i += 1;
    }
    proof {
        assert(lv.skip(lines@.len() as int) =~= Seq::<Seq<char>>::empty());
    }
    None
}

proof fn lemma_first_match_snoc(lines: Seq<Seq<char>>, d: char, tki: int, key: Seq<char>)
    requires
        lines.len() > 0,
    ensures
        first_match_row(lines, d, tki, key) == ({
            let prev = first_match_row(lines.drop_last(), d, tki, key);
            if prev is Some {
                prev
            } else {
                let row = split_spec(lines.last(), d);
                if key_cell(row, tki) == Some(key) {
                    Some(row)
                } else {
                    None
                }
            }
        }),
    decreases lines.len(),
{
    if lines.len() > 1 {
        lemma_first_match_snoc(lines.drop_first(), d, tki, key);
        assert(lines.drop_first().drop_last() =~= lines.drop_last().drop_first());
        assert(lines.drop_first().last() == lines.last());
        assert(lines.drop_last().first() == lines.first());
        assert(lines.drop_last().len() > 0);
        let row0 = split_spec(lines.first(), d);
        if key_cell(row0, tki) == Some(key) {
            assert(first_match_row(lines, d, tki, key) == Some(row0));
            assert(first_match_row(lines.drop_last(), d, tki, key) == Some(row0));
        } else {
            assert(first_match_row(lines, d, tki, key) == first_match_row(
                lines.drop_first(),
                d,
                tki,
                key,
            ));
            assert(first_match_row(lines.drop_last(), d, tki, key) == first_match_row(
                lines.drop_last().drop_first(),
                d,
                tki,
                key,
            ));
        }
    } else {
        assert(lines.drop_last() =~= Seq::<Seq<char>>::empty());
        assert(first_match_row(lines.drop_last(), d, tki, key) is None);
        assert(lines.last() == lines.first());
        assert(lines.drop_first() =~= Seq::<Seq<char>>::empty());
        assert(first_match_row(lines.drop_first(), d, tki, key) is None);
    }
}

/// Preloading keeps, for every key, exactly the first matching line of
/// the file: a preloaded lookup answers as a streaming scan does.
pub proof fn lemma_preload_first_match(lines: Seq<Seq<char>>, d: char, tki: int, key: Seq<char>)
    ensures
        lookup_model(preload_entries(lines, d, tki), key) == first_match_row(lines, d, tki, key),
    decreases lines.len(),
{
    if lines.len() > 0 {
        lemma_preload_first_match(lines.drop_last(), d, tki, key);
        lemma_first_match_snoc(lines, d, tki, key);
        let prev = preload_entries(lines.drop_last(), d, tki);
        let row = split_spec(lines.last(), d);
        match key_cell(row, tki) {
            Some(k) => {
                if lookup_model(prev, k) is None {
                    let entries = prev.push((k, row));
                    assert(entries.drop_last() =~= prev);
                    assert(entries.last() == (k, row));
                    if key == k {
                    } else {
                        assert(lookup_model(entries, key) == lookup_model(prev, key));
                    }
                } else {
                    if key == k {
                        lemma_preload_first_match(lines.drop_last(), d, tki, k);
                    }
                }
            },
            None => {},
        }
    }
}

/// A resolved answer always has exactly the width its match ranges
/// select: one cell per selected column.
pub proof fn lemma_resolved_width(m: MapModel, mlines: Seq<Seq<char>>, key: Seq<char>)
    requires
        ranges_wf(m.ranges),
        resolve_model(m, mlines, key) is Some,
    ensures
        resolve_model(m, mlines, key)->Some_0.len() == width_of(m.ranges),
{
    match m.mode {
        ModeModel::Streaming => {
            let row = first_match_row(mlines, m.delimiter, m.target_key_index, key)->Some_0;
            crate::helpers::lemma_extract_len(row, m.ranges);
        },
        ModeModel::Preloaded { entries } => {
            let row = lookup_model(entries, key)->Some_0;
            crate::helpers::lemma_extract_len(row, m.ranges);
        },
        ModeModel::Cached { capacity, entries } => {
            match lookup_model(entries, key) {
                Some(row) => {
                    crate::helpers::lemma_extract_len(row, m.ranges);
                },
                None => {
                    let row = first_match_row(mlines, m.delimiter, m.target_key_index, key)->Some_0;
                    crate::helpers::lemma_extract_len(row, m.ranges);
                },
            }
        },
    }
}

/// For a fixed file and key, streaming and preloaded resolution answer
/// the same extracted columns: both honour first-match-wins.
pub proof fn lemma_streaming_preloaded_agree(
    lines: Seq<Seq<char>>,
    d: char,
    tki: int,
    ranges: Seq<(u32, u32)>,
    key: Seq<char>,
)
    ensures
        streaming_resolve(lines, d, tki, ranges, key) == preloaded_resolve(
            preload_entries(lines, d, tki),
            ranges,
            key,
        ),
{
    lemma_preload_first_match(lines, d, tki, key);
}

} // verus!
