//! The join engine: one output line per source line, in input order.
//!
//! For each source line the engine splits the line on the source
//! delimiter, asks every mapping file in configuration order for its
//! columns (empty placeholders keep the width when the key cell is
//! missing or nothing matched), projects the source columns through the
//! source's own ranges, and joins projection plus mapped columns back
//! into one line. Nothing is filtered: the output has exactly one line
//! per input line.

use crate::helpers::blanks_of;
use crate::helpers::extract_ranges;
use crate::helpers::extract_spec;
use crate::helpers::in_bounds;
use crate::helpers::ranges_wf;
use crate::helpers::width_of;
use crate::mapping_file::MapModel;
use crate::mapping_file::MappingFile;
use crate::mapping_file::key_cell;
use crate::mapping_file::lemma_resolved_width;
use crate::mapping_file::resolve_model;
use crate::mapping_file::step_model;
use crate::rows::join_cells;
use crate::rows::join_spec;
use crate::rows::split_cells;
use crate::rows::split_spec;
use crate::source_file::SourceFile;
use vstd::prelude::*;

verus! {

/// The columns one mapping source contributes for one source row: its
/// resolved columns, or one empty placeholder per match-range column
/// when the row has no key cell or nothing matched.
pub open spec fn row_contribution(
    m: MapModel,
    mlines: Seq<Seq<char>>,
    row: Seq<Seq<char>>,
) -> Seq<Seq<char>> {
    match key_cell(row, m.source_key_index) {
        Some(k) => match resolve_model(m, mlines, k) {
            Some(cols) => cols,
            None => blanks_of(m.ranges),
        },
        None => blanks_of(m.ranges),
    }
}

/// One mapping source's state after it served one source row.
pub open spec fn row_step(m: MapModel, mlines: Seq<Seq<char>>, row: Seq<Seq<char>>) -> MapModel {
    match key_cell(row, m.source_key_index) {
        Some(k) => step_model(m, mlines, k),
        None => m,
    }
}

/// All mapping sources' columns for one source row, in configuration
/// order.
pub open spec fn mapped_cells(
    maps: Seq<MapModel>,
    mlines: Seq<Seq<Seq<char>>>,
    row: Seq<Seq<char>>,
) -> Seq<Seq<char>>
    decreases maps.len(),
{
    if maps.len() == 0 {
        Seq::<Seq<char>>::empty()
    } else {
        mapped_cells(maps.drop_last(), mlines.drop_last(), row) + row_contribution(
            maps.last(),
            mlines.last(),
            row,
        )
    }
}

/// The source columns that survive into the output: the configured
/// projection, or no source columns at all when the row is too narrow
/// for it.
pub open spec fn source_projection(row: Seq<Seq<char>>, ranges: Seq<(u32, u32)>) -> Seq<
    Seq<char>,
> {
    if in_bounds(row, ranges) {
        extract_spec(row, ranges)
    } else {
        Seq::<Seq<char>>::empty()
    }
}

/// The one output line for one source line.
pub open spec fn join_line_model(
    src_d: char,
    src_ranges: Seq<(u32, u32)>,
    maps: Seq<MapModel>,
    mlines: Seq<Seq<Seq<char>>>,
    line: Seq<char>,
) -> Seq<char> {
    let row = split_spec(line, src_d);
    join_spec(source_projection(row, src_ranges) + mapped_cells(maps, mlines, row), src_d)
}

/// All mapping sources' states after one source row.
pub open spec fn maps_step(
    maps: Seq<MapModel>,
    mlines: Seq<Seq<Seq<char>>>,
    row: Seq<Seq<char>>,
) -> Seq<MapModel> {
    Seq::new(maps.len(), |j: int| row_step(maps[j], mlines[j], row))
}

/// The output lines and the final mapping states of a whole run.
pub open spec fn run_model(
    src_d: char,
    src_ranges: Seq<(u32, u32)>,
    maps: Seq<MapModel>,
    mlines: Seq<Seq<Seq<char>>>,
    lines: Seq<Seq<char>>,
) -> (Seq<Seq<char>>, Seq<MapModel>)
    decreases lines.len(),
{
    if lines.len() == 0 {
        (Seq::<Seq<char>>::empty(), maps)
    } else {
        let out0 = join_line_model(src_d, src_ranges, maps, mlines, lines.first());
        let maps1 = maps_step(maps, mlines, split_spec(lines.first(), src_d));
        let rest = run_model(src_d, src_ranges, maps1, mlines, lines.drop_first());
        (seq![out0] + rest.0, rest.1)
    }
}

/// The abstract states of the mapping files, in configuration order.
pub open spec fn models_of(maps: Seq<MappingFile>) -> Seq<MapModel> {
    maps.map_values(|m: MappingFile| m.model())
}

/// Emit one output line for one source line, advancing every mapping
/// source's cache state.
pub fn join_line(
    source: &SourceFile,
    mappings: &mut Vec<MappingFile>,
    mapping_lines: &Vec<Vec<String>>,
    line: &str,
) -> (out: String)
    requires
        source.inv(),
        old(mappings)@.len() == mapping_lines@.len(),
        forall|j: int| 0 <= j < old(mappings)@.len() ==> (#[trigger] old(mappings)@[j]).inv(),
    ensures
        final(mappings)@.len() == old(mappings)@.len(),
        forall|j: int| 0 <= j < final(mappings)@.len() ==> (#[trigger] final(mappings)@[j]).inv(),
        models_of(final(mappings)@) == maps_step(
            models_of(old(mappings)@),
            mapping_lines.deep_view(),
            split_spec(line@, source.delimiter),
        ),
        out@ == join_line_model(
            source.delimiter,
            source.target_match_ranges@,
            models_of(old(mappings)@),
            mapping_lines.deep_view(),
            line@,
        ),
{
    let ghost maps0 = models_of(old(mappings)@);
    let ghost mlv = mapping_lines.deep_view();
    let row = split_cells(line, source.delimiter);
    let ghost rowv = split_spec(line@, source.delimiter);
    let mut cells: Vec<String> = match extract_ranges(&row, &source.target_match_ranges) {
        Some(v) => v,
        None => Vec::new(),
    };
    proof {
        if !in_bounds(rowv, source.target_match_ranges@) {
            assert(cells.deep_view() =~= Seq::<Seq<char>>::empty());
        }
        assert(cells.deep_view() == source_projection(rowv, source.target_match_ranges@));
        assert(maps0.take(0) =~= Seq::<MapModel>::empty());
        assert(mlv.take(0) =~= Seq::<Seq<Seq<char>>>::empty());
        assert(cells.deep_view() + mapped_cells(maps0.take(0), mlv.take(0), rowv)
            =~= cells.deep_view());
    }
    let n = mappings.len();
    let mut j: usize = 0;
    while j < n
        invariant
            n == mappings@.len(),
            mappings@.len() == old(mappings)@.len(),
            mappings@.len() == mapping_lines@.len(),
            mlv == mapping_lines.deep_view(),
            n == mlv.len(),
            j <= n,
            rowv == split_spec(line@, source.delimiter),
            row.deep_view() == rowv,
            maps0 == models_of(old(mappings)@),
            forall|k: int| 0 <= k < n ==> (#[trigger] mappings@[k]).inv(),
            forall|k: int| j <= k < n ==> mappings@[k] == old(mappings)@[k],
            forall|k: int|
                0 <= k < j ==> (#[trigger] mappings@[k]).model() == row_step(
                    maps0[k],
                    mlv[k],
                    rowv,
                ),
            cells.deep_view() == source_projection(rowv, source.target_match_ranges@)
                + mapped_cells(maps0.take(j as int), mlv.take(j as int), rowv),
        decreases n - j,
    {
        let ghost pre_maps = maps0.take(j as int);
        let ghost post_maps = maps0.take(j + 1 as int);
        proof {
            assert(post_maps.drop_last() =~= pre_maps);
            assert(post_maps.last() == maps0[j as int]);
            assert(mlv.take(j + 1).drop_last() =~= mlv.take(j as int));
            assert(mlv.take(j + 1).last() == mlv[j as int]);
            assert(maps0[j as int] == old(mappings)@[j as int].model());
            assert(mapping_lines@[j as int].deep_view() == mlv[j as int]);
        }
        let ghost m_model = maps0[j as int];
        let ghost cells_before = cells.deep_view();
        let ski = mappings[j].source_key_index;
        if ski < row.len() as u64 {
            let key = row[ski as usize].clone();
            proof {
                assert(row.deep_view()[ski as int] == row@[ski as int]@);
                assert(key_cell(rowv, m_model.source_key_index) == Some(key@));
            }
            let mf = &mut mappings[j];
            let res = mf.find_match(key.as_str(), &mapping_lines[j]);
            proof {
                assert(mappings@[j as int].model() == step_model(m_model, mlv[j as int], key@));
                assert(row_step(m_model, mlv[j as int], rowv) == step_model(
                    m_model,
                    mlv[j as int],
                    key@,
                ));
            }
            match res {
                Some(mut cols) => {
                    let ghost colsv = cols.deep_view();
                    proof {
                        assert(row_contribution(m_model, mlv[j as int], rowv) == colsv);
                    }
                    cells.append(&mut cols);
                    proof {
                        assert(cells.deep_view() =~= cells_before + colsv);
                    }
                },
                None => {
                    proof {
                        assert(row_contribution(m_model, mlv[j as int], rowv) == blanks_of(
                            m_model.ranges,
                        ));
                        assert(mappings@[j as int].model().ranges == m_model.ranges);
                    }
                    mappings[j].push_placeholders(&mut cells);
                },
            }
        } else {
            proof {
                assert(key_cell(rowv, m_model.source_key_index) is None);
                assert(row_contribution(m_model, mlv[j as int], rowv) == blanks_of(m_model.ranges));
                assert(row_step(m_model, mlv[j as int], rowv) == m_model);
            }
            mappings[j].push_placeholders(&mut cells);
        }
        proof {
            assert(mapped_cells(post_maps, mlv.take(j + 1), rowv) == mapped_cells(
                pre_maps,
                mlv.take(j as int),
                rowv,
            ) + row_contribution(m_model, mlv[j as int], rowv));
            assert(cells.deep_view() =~= source_projection(rowv, source.target_match_ranges@)
                + mapped_cells(post_maps, mlv.take(j + 1), rowv));
        }
        j += 1;
    }
    proof {
        assert(maps0.take(n as int) =~= maps0);
        assert(mlv.take(n as int) =~= mlv);
        assert(models_of(mappings@) =~= maps_step(maps0, mlv, rowv));
    }
    join_cells(&cells, source.delimiter)
}

/// Process every source line in order: the output always has exactly one
/// line per source line.
pub fn join_lines(
    source: &SourceFile,
    mappings: &mut Vec<MappingFile>,
    mapping_lines: &Vec<Vec<String>>,
    source_lines: &Vec<String>,
) -> (out: Vec<String>)
    requires
        source.inv(),
        old(mappings)@.len() == mapping_lines@.len(),
        forall|j: int| 0 <= j < old(mappings)@.len() ==> (#[trigger] old(mappings)@[j]).inv(),
    ensures
        out@.len() == source_lines@.len(),
        final(mappings)@.len() == old(mappings)@.len(),
        forall|j: int| 0 <= j < final(mappings)@.len() ==> (#[trigger] final(mappings)@[j]).inv(),
        out.deep_view() == run_model(
            source.delimiter,
            source.target_match_ranges@,
            models_of(old(mappings)@),
            mapping_lines.deep_view(),
            source_lines.deep_view(),
        ).0,
        models_of(final(mappings)@) == run_model(
            source.delimiter,
            source.target_match_ranges@,
            models_of(old(mappings)@),
            mapping_lines.deep_view(),
            source_lines.deep_view(),
        ).1,
{
    let ghost maps0 = models_of(old(mappings)@);
    let ghost mlv = mapping_lines.deep_view();
    let ghost slv = source_lines.deep_view();
    let ghost d = source.delimiter;
    let ghost ranges = source.target_match_ranges@;
    let mut out: Vec<String> = Vec::new();
    let mut i: usize = 0;
    proof {
        assert(slv.skip(0) =~= slv);
        assert(out.deep_view() + run_model(d, ranges, models_of(mappings@), mlv, slv.skip(0)).0
            =~= run_model(d, ranges, maps0, mlv, slv).0);
    }
    while i < source_lines.len()
        invariant
            source.inv(),
            d == source.delimiter,
            ranges == source.target_match_ranges@,
            mappings@.len() == old(mappings)@.len(),
            mappings@.len() == mapping_lines@.len(),
            mlv == mapping_lines.deep_view(),
            slv == source_lines.deep_view(),
            i <= slv.len(),
            out@.len() == i,
            forall|j: int| 0 <= j < mappings@.len() ==> (#[trigger] mappings@[j]).inv(),
            run_model(d, ranges, maps0, mlv, slv).0 == out.deep_view() + run_model(
                d,
                ranges,
                models_of(mappings@),
                mlv,
                slv.skip(i as int),
            ).0,
            run_model(d, ranges, maps0, mlv, slv).1 == run_model(
                d,
                ranges,
                models_of(mappings@),
                mlv,
                slv.skip(i as int),
            ).1,
        decreases slv.len() - i,
    {
        let ghost cur = models_of(mappings@);
        let ghost out_before = out.deep_view();
        proof {
            assert(slv.skip(i as int).first() == slv[i as int]);
            assert(slv.skip(i as int).drop_first() =~= slv.skip(i + 1));
            assert(source_lines@[i as int]@ == slv[i as int]);
        }
        let line_out = join_line(source, mappings, mapping_lines, source_lines[i].as_str());
        out.push(line_out);
        proof {
            let out0 = join_line_model(d, ranges, cur, mlv, slv[i as int]);
            assert(line_out@ == out0);
            assert(models_of(mappings@) == maps_step(cur, mlv, split_spec(slv[i as int], d)));
            assert(run_model(d, ranges, cur, mlv, slv.skip(i as int)).0 == seq![out0] + run_model(
                d,
                ranges,
                models_of(mappings@),
                mlv,
                slv.skip(i + 1),
            ).0);
            assert(run_model(d, ranges, cur, mlv, slv.skip(i as int)).1 == run_model(
                d,
                ranges,
                models_of(mappings@),
                mlv,
                slv.skip(i + 1),
            ).1);
            assert(out.deep_view() =~= out_before.push(out0));
            assert(out_before + (seq![out0] + run_model(
                d,
                ranges,
                models_of(mappings@),
                mlv,
                slv.skip(i + 1),
            ).0) =~= out.deep_view() + run_model(
                d,
                ranges,
                models_of(mappings@),
                mlv,
                slv.skip(i + 1),
            ).0);
        }
        i += 1;
    }
    proof {
        assert(slv.skip(slv.len() as int) =~= Seq::<Seq<char>>::empty());
        assert(out.deep_view() + Seq::<Seq<char>>::empty() =~= out.deep_view());
    }
    out
}

/// One output line is owed for every input line: a run never drops or
/// duplicates a row.
pub proof fn lemma_output_count(
    src_d: char,
    src_ranges: Seq<(u32, u32)>,
    maps: Seq<MapModel>,
    mlines: Seq<Seq<Seq<char>>>,
    lines: Seq<Seq<char>>,
)
    ensures
        run_model(src_d, src_ranges, maps, mlines, lines).0.len() == lines.len(),
    decreases lines.len(),
{
    if lines.len() > 0 {
        lemma_output_count(
            src_d,
            src_ranges,
            maps_step(maps, mlines, split_spec(lines.first(), src_d)),
            mlines,
            lines.drop_first(),
        );
    }
}

/// An unmatched source key contributes exactly one empty placeholder per
/// match-range column.
pub proof fn lemma_unmatched_placeholders(
    m: MapModel,
    mlines: Seq<Seq<char>>,
    row: Seq<Seq<char>>,
    k: Seq<char>,
)
    requires
        key_cell(row, m.source_key_index) == Some(k),
        resolve_model(m, mlines, k) is None,
    ensures
        row_contribution(m, mlines, row) == Seq::new(
            width_of(m.ranges),
            |i: int| Seq::<char>::empty(),
        ),
        row_contribution(m, mlines, row).len() == width_of(m.ranges),
{
}

/// Matched or not, a mapping source hands every row the same number of
/// columns: the width its match ranges select.
pub proof fn lemma_contribution_width(m: MapModel, mlines: Seq<Seq<char>>, row: Seq<Seq<char>>)
    requires
        ranges_wf(m.ranges),
    ensures
        row_contribution(m, mlines, row).len() == width_of(m.ranges),
{
    match key_cell(row, m.source_key_index) {
        Some(k) => {
            match resolve_model(m, mlines, k) {
                Some(cols) => {
                    lemma_resolved_width(m, mlines, k);
                },
                None => {},
            }
        },
        None => {},
    }
}

} // verus!
