use file_mapper::cache::MappingCache;
use file_mapper::helpers::ConfigError;
use file_mapper::mapping_file::MappingFile;
use file_mapper::source_file::SourceFile;

fn row(cells: &[&str]) -> Vec<String> {
    cells.iter().map(|c| c.to_string()).collect()
}

fn lines(ls: &[&str]) -> Vec<String> {
    ls.iter().map(|l| l.to_string()).collect()
}

#[test]
fn mapping_file_rejects_bad_range_expression() {
    assert!(matches!(
        MappingFile::new("m.csv", ',', 0, 0, "2-1"),
        Err(ConfigError::InvertedRange)
    ));
    assert!(matches!(
        MappingFile::new("m.csv", ',', 0, 0, "x"),
        Err(ConfigError::InvalidBound)
    ));
}

#[test]
fn source_file_parses_its_projection() {
    let s = SourceFile::new("s.csv".to_string(), ',', "0-1".to_string()).unwrap();
    assert_eq!(s.filename, "s.csv");
    assert_eq!(s.delimiter, ',');
    assert_eq!(s.target_match_ranges, vec![(0, 1)]);
    assert!(matches!(
        SourceFile::new("s.csv".to_string(), ',', "1-2-3".to_string()),
        Err(ConfigError::InvalidSegment)
    ));
}

#[test]
fn streaming_resolves_first_matching_line() {
    let mut m = MappingFile::new("m.csv", ',', 0, 0, "1-2").unwrap();
    let ls = lines(&["1,Paris,France", "2,Rome,Italy"]);
    assert_eq!(m.find_match("1", &ls), Some(row(&["Paris", "France"])));
    assert_eq!(m.find_match("2", &ls), Some(row(&["Rome", "Italy"])));
    assert_eq!(m.find_match("9", &ls), None);
}

#[test]
fn streaming_first_match_wins_on_duplicate_keys() {
    let mut m = MappingFile::new("m.csv", ',', 0, 0, "1").unwrap();
    let ls = lines(&["1,first", "1,second"]);
    assert_eq!(m.find_match("1", &ls), Some(row(&["first"])));
}

#[test]
fn preloaded_agrees_with_streaming_on_unique_keys() {
    let ls = lines(&["1,Paris,France", "2,Rome,Italy", "3,Lima,Peru"]);
    let mut streaming = MappingFile::new("m.csv", ',', 0, 0, "1-2").unwrap();
    let mut preloaded = MappingFile::new("m.csv", ',', 0, 0, "1-2").unwrap();
    preloaded.load_into_memory(&ls);
    for key in ["1", "2", "3", "9", ""] {
        assert_eq!(streaming.find_match(key, &ls), preloaded.find_match(key, &ls));
    }
}

#[test]
fn preloaded_keeps_the_first_line_of_a_duplicate_key() {
    let ls = lines(&["1,first", "1,second"]);
    let mut m = MappingFile::new("m.csv", ',', 0, 0, "1").unwrap();
    m.load_into_memory(&ls);
    assert_eq!(m.find_match("1", &ls), Some(row(&["first"])));
}

#[test]
fn key_column_past_the_line_never_matches() {
    let mut m = MappingFile::new("m.csv", ',', 0, 3, "0").unwrap();
    let ls = lines(&["a,b", "a,b,c,a"]);
    assert_eq!(m.find_match("a", &ls), Some(row(&["a"])));
    assert_eq!(m.find_match("b", &ls), None);
}

#[test]
fn match_range_past_the_matched_row_is_a_miss() {
    let mut m = MappingFile::new("m.csv", ',', 0, 0, "3").unwrap();
    let ls = lines(&["1,only-two"]);
    assert_eq!(m.find_match("1", &ls), None);
}

#[test]
fn cached_mode_fills_the_cache_on_a_hit() {
    let mut m = MappingFile::new("m.csv", ',', 0, 0, "1-2").unwrap();
    m.cache("filo", 4);
    let ls = lines(&["1,Paris,France", "2,Rome,Italy"]);
    assert_eq!(m.cache.get("1".to_string()), None);
    assert_eq!(m.find_match("1", &ls), Some(row(&["Paris", "France"])));
    assert_eq!(m.cache.get("1".to_string()), Some(&row(&["1", "Paris", "France"])));
    assert_eq!(m.find_match("1", &ls), Some(row(&["Paris", "France"])));
}

#[test]
fn cached_mode_does_not_cache_misses() {
    let mut m = MappingFile::new("m.csv", ',', 0, 0, "1-2").unwrap();
    m.cache("filo", 4);
    let ls = lines(&["1,Paris,France"]);
    assert_eq!(m.find_match("9", &ls), None);
    assert_eq!(m.cache.get("9".to_string()), None);
}

#[test]
fn cached_mode_answers_from_the_cache_before_the_file() {
    let mut m = MappingFile::new("m.csv", ',', 0, 0, "1").unwrap();
    m.cache("filo", 4);
    let ls = lines(&["1,from-file"]);
    assert_eq!(m.find_match("1", &ls), Some(row(&["from-file"])));
    let changed = lines(&["1,changed"]);
    assert_eq!(m.find_match("1", &changed), Some(row(&["from-file"])));
}

#[test]
fn unknown_cache_method_retains_nothing() {
    let mut m = MappingFile::new("m.csv", ',', 0, 0, "1").unwrap();
    m.cache("lru", 4);
    let ls = lines(&["1,Paris"]);
    assert_eq!(m.find_match("1", &ls), Some(row(&["Paris"])));
    assert_eq!(m.cache.get("1".to_string()), None);
}
