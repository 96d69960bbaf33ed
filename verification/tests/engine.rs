use file_mapper::config::Config;
use file_mapper::engine::join_line;
use file_mapper::engine::join_lines;
use file_mapper::mapping_file::MappingFile;
use file_mapper::source_file::SourceFile;

fn lines(ls: &[&str]) -> Vec<String> {
    ls.iter().map(|l| l.to_string()).collect()
}

fn one_mapping(match_range: &str) -> Vec<MappingFile> {
    vec![MappingFile::new("m.csv", ',', 0, 0, match_range).unwrap()]
}

fn source() -> SourceFile {
    SourceFile::new("s.csv".to_string(), ',', "0-1".to_string()).unwrap()
}

#[test]
fn matched_key_appends_the_mapped_columns() {
    let src = source();
    let mut maps = one_mapping("1-2");
    let mlines = vec![lines(&["1,Paris,France"])];
    let out = join_line(&src, &mut maps, &mlines, "1,Alice");
    assert_eq!(out, "1,Alice,Paris,France");
}

#[test]
fn unmatched_key_appends_one_blank_per_selected_column() {
    let src = source();
    let mut maps = one_mapping("1-2");
    let mlines = vec![lines(&["1,Paris,France"])];
    let out = join_line(&src, &mut maps, &mlines, "9,Bob");
    assert_eq!(out, "9,Bob,,");
}

#[test]
fn output_width_is_constant_across_matched_and_unmatched_rows() {
    let src = source();
    let mut maps = one_mapping("1-2");
    let mlines = vec![lines(&["1,Paris,France"])];
    let srcs = lines(&["1,Alice", "9,Bob", "1,Carol"]);
    let out = join_lines(&src, &mut maps, &mlines, &srcs);
    assert_eq!(out, lines(&["1,Alice,Paris,France", "9,Bob,,", "1,Carol,Paris,France"]));
    for line in &out {
        assert_eq!(line.split(',').count(), 4);
    }
}

#[test]
fn one_output_line_per_input_line() {
    let src = source();
    let mut maps = one_mapping("1");
    let mlines = vec![lines(&["1,x"])];
    let srcs = lines(&["1,a", "2,b", "3,c", "", "1,d"]);
    let out = join_lines(&src, &mut maps, &mlines, &srcs);
    assert_eq!(out.len(), srcs.len());
}

#[test]
fn source_projection_drops_unselected_columns() {
    let src = SourceFile::new("s.csv".to_string(), ',', "1".to_string()).unwrap();
    let mut maps = one_mapping("1");
    let mlines = vec![lines(&["k,mapped"])];
    let out = join_line(&src, &mut maps, &mlines, "k,keep,drop");
    assert_eq!(out, "keep,mapped");
}

#[test]
fn source_row_too_narrow_for_projection_keeps_no_source_columns() {
    let src = source();
    let mut maps = one_mapping("1");
    let mlines = vec![lines(&["only,mapped"])];
    let out = join_line(&src, &mut maps, &mlines, "only");
    assert_eq!(out, "mapped");
}

#[test]
fn source_row_without_the_key_column_gets_blanks() {
    let src = SourceFile::new("s.csv".to_string(), ',', "0".to_string()).unwrap();
    let mut maps = vec![MappingFile::new("m.csv", ',', 2, 0, "1").unwrap()];
    let mlines = vec![lines(&["x,mapped"])];
    let out = join_line(&src, &mut maps, &mlines, "a,b");
    assert_eq!(out, "a,");
}

#[test]
fn two_mapping_sources_contribute_in_configuration_order() {
    let src = source();
    let mut maps = vec![
        MappingFile::new("m1.csv", ',', 0, 0, "1").unwrap(),
        MappingFile::new("m2.csv", ',', 1, 0, "1-2").unwrap(),
    ];
    let mlines = vec![lines(&["1,city"]), lines(&["Alice,blue,cat"])];
    let out = join_line(&src, &mut maps, &mlines, "1,Alice");
    assert_eq!(out, "1,Alice,city,blue,cat");
    let out2 = join_line(&src, &mut maps, &mlines, "2,Alice");
    assert_eq!(out2, "2,Alice,,blue,cat");
}

#[test]
fn engine_works_with_tab_delimited_source() {
    let src = SourceFile::new("s.tsv".to_string(), '\t', "0-1".to_string()).unwrap();
    let mut maps = vec![MappingFile::new("m.tsv", '\t', 0, 0, "1").unwrap()];
    let mlines = vec![lines(&["1\tParis"])];
    let out = join_line(&src, &mut maps, &mlines, "1\tAlice");
    assert_eq!(out, "1\tAlice\tParis");
}

#[test]
fn preloaded_and_streaming_runs_emit_the_same_output() {
    let src = source();
    let mlines = vec![lines(&["1,Paris,France", "2,Rome,Italy"])];
    let srcs = lines(&["1,Alice", "2,Bob", "9,Eve"]);

    let mut streaming = one_mapping("1-2");
    let out_streaming = join_lines(&src, &mut streaming, &mlines, &srcs);

    let mut preloaded = one_mapping("1-2");
    preloaded[0].load_into_memory(&mlines[0]);
    let out_preloaded = join_lines(&src, &mut preloaded, &mlines, &srcs);

    assert_eq!(out_streaming, out_preloaded);
}

#[test]
fn cached_run_emits_the_same_output_as_streaming() {
    let src = source();
    let mlines = vec![lines(&["1,Paris,France", "2,Rome,Italy"])];
    let srcs = lines(&["1,Alice", "1,Ann", "2,Bob", "9,Eve", "1,Abe"]);

    let mut streaming = one_mapping("1-2");
    let out_streaming = join_lines(&src, &mut streaming, &mlines, &srcs);

    let mut cached = one_mapping("1-2");
    cached[0].cache("filo", 1);
    let out_cached = join_lines(&src, &mut cached, &mlines, &srcs);

    assert_eq!(out_streaming, out_cached);
}

#[test]
fn config_groups_source_and_mappings() {
    let config = Config { source_file: source(), mapping_files: one_mapping("1") };
    let mut mappings = config.mapping_files;
    let mlines = vec![lines(&["1,x"])];
    let out = join_line(&config.source_file, &mut mappings, &mlines, "1,y");
    assert_eq!(out, "1,y,x");
}

#[test]
fn empty_source_line_is_still_emitted() {
    let src = SourceFile::new("s.csv".to_string(), ',', "0".to_string()).unwrap();
    let mut maps = one_mapping("1");
    let mlines = vec![lines(&["1,x"])];
    let out = join_lines(&src, &mut maps, &mlines, &lines(&[""]));
    assert_eq!(out, lines(&[","]));
}
