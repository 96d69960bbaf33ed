use file_mapper::helpers::match_ranges;
use file_mapper::helpers::extract_ranges;
use file_mapper::helpers::blank_cells;
use file_mapper::helpers::parse_bound;
use file_mapper::helpers::parse_delimiter;
use file_mapper::helpers::ConfigError;

fn row(cells: &[&str]) -> Vec<String> {
    cells.iter().map(|c| c.to_string()).collect()
}

#[test]
fn single_index_segments_parse_to_point_intervals() {
    let ivs = match_ranges("0,2").unwrap();
    assert_eq!(ivs, vec![(0, 0), (2, 2)]);
}

#[test]
fn dash_segment_parses_to_one_interval() {
    let ivs = match_ranges("1-3").unwrap();
    assert_eq!(ivs, vec![(1, 3)]);
}

#[test]
fn mixed_expression_parses_in_order() {
    let ivs = match_ranges("4,0-1,2").unwrap();
    assert_eq!(ivs, vec![(4, 4), (0, 1), (2, 2)]);
}

#[test]
fn non_numeric_bound_is_invalid_bound() {
    assert_eq!(match_ranges("a"), Err(ConfigError::InvalidBound));
    assert_eq!(match_ranges("1,x-2"), Err(ConfigError::InvalidBound));
}

#[test]
fn empty_expression_is_invalid_bound() {
    assert_eq!(match_ranges(""), Err(ConfigError::InvalidBound));
}

#[test]
fn dangling_dash_is_invalid_bound() {
    assert_eq!(match_ranges("1-"), Err(ConfigError::InvalidBound));
    assert_eq!(match_ranges("-1"), Err(ConfigError::InvalidBound));
}

#[test]
fn too_many_dashes_is_invalid_segment() {
    assert_eq!(match_ranges("1-2-3"), Err(ConfigError::InvalidSegment));
}

#[test]
fn inverted_pair_is_inverted_range() {
    assert_eq!(match_ranges("5-2"), Err(ConfigError::InvertedRange));
}

#[test]
fn first_bad_segment_decides_the_error() {
    assert_eq!(match_ranges("1,2-3-4,9-1"), Err(ConfigError::InvalidSegment));
    assert_eq!(match_ranges("1,9-1,2-3-4"), Err(ConfigError::InvertedRange));
}

#[test]
fn oversized_bound_is_invalid_bound() {
    assert_eq!(match_ranges("4294967296"), Err(ConfigError::InvalidBound));
    assert_eq!(match_ranges("4294967295").unwrap(), vec![(4294967295, 4294967295)]);
}

#[test]
fn parse_bound_reads_decimal_u32() {
    assert_eq!(parse_bound("123"), Some(123));
    assert_eq!(parse_bound("0"), Some(0));
    assert_eq!(parse_bound("4294967295"), Some(u32::MAX));
    assert_eq!(parse_bound("4294967296"), None);
    assert_eq!(parse_bound(""), None);
    assert_eq!(parse_bound("12a"), None);
}

#[test]
fn extraction_follows_interval_order() {
    let r = row(&["a", "b", "c", "d"]);
    assert_eq!(extract_ranges(&r, &vec![(1, 2)]), Some(row(&["b", "c"])));
    assert_eq!(extract_ranges(&r, &vec![(2, 2), (0, 1)]), Some(row(&["c", "a", "b"])));
    assert_eq!(extract_ranges(&r, &vec![(0, 3)]), Some(r.clone()));
}

#[test]
fn overlapping_intervals_repeat_cells() {
    let r = row(&["a", "b", "c"]);
    assert_eq!(extract_ranges(&r, &vec![(0, 1), (1, 2)]), Some(row(&["a", "b", "b", "c"])));
}

#[test]
fn parse_then_extract_counts_cells_per_interval() {
    let ivs = match_ranges("0,2-3").unwrap();
    let r = row(&["w", "x", "y", "z"]);
    let cells = extract_ranges(&r, &ivs).unwrap();
    assert_eq!(cells.len(), 3);
    assert_eq!(cells, row(&["w", "y", "z"]));
}

#[test]
fn extraction_past_the_row_width_fails_the_row() {
    let r = row(&["a", "b"]);
    assert_eq!(extract_ranges(&r, &vec![(0, 2)]), None);
    assert_eq!(extract_ranges(&r, &vec![(5, 5)]), None);
}

#[test]
fn blank_cells_match_extraction_width() {
    assert_eq!(blank_cells(&vec![(1, 2), (4, 4)]), row(&["", "", ""]));
    assert_eq!(blank_cells(&vec![]), row(&[]));
}

#[test]
fn delimiter_aliases() {
    assert_eq!(parse_delimiter("tsv"), '\t');
    assert_eq!(parse_delimiter("csv"), ',');
    assert_eq!(parse_delimiter("psv"), '|');
    assert_eq!(parse_delimiter("anything-else"), ',');
}
