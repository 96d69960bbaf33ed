use file_mapper::cache::FiloCache;
use file_mapper::cache::MappingCache;
use file_mapper::rows::join_cells;
use file_mapper::rows::split_cells;

fn row(cells: &[&str]) -> Vec<String> {
    cells.iter().map(|c| c.to_string()).collect()
}

#[test]
fn split_on_commas() {
    assert_eq!(split_cells("a,b,c", ','), row(&["a", "b", "c"]));
}

#[test]
fn split_keeps_empty_cells() {
    assert_eq!(split_cells("a,,c", ','), row(&["a", "", "c"]));
    assert_eq!(split_cells(",a,", ','), row(&["", "a", ""]));
}

#[test]
fn split_of_empty_line_is_one_empty_cell() {
    assert_eq!(split_cells("", ','), row(&[""]));
}

#[test]
fn split_on_tab_and_pipe() {
    assert_eq!(split_cells("a\tb", '\t'), row(&["a", "b"]));
    assert_eq!(split_cells("a|b|c", '|'), row(&["a", "b", "c"]));
}

#[test]
fn join_puts_one_delimiter_between_cells() {
    assert_eq!(join_cells(&row(&["a", "b", "c"]), ','), "a,b,c");
    assert_eq!(join_cells(&row(&[""]), ','), "");
    assert_eq!(join_cells(&row(&[]), ','), "");
}

#[test]
fn join_keeps_leading_empty_cells() {
    assert_eq!(join_cells(&row(&["", "a"]), ','), ",a");
}

#[test]
fn split_then_join_restores_the_line() {
    for line in ["a,b,c", "", ",", "x,,y,", "just-one"] {
        assert_eq!(join_cells(&split_cells(line, ','), ','), line);
    }
}

#[test]
fn fifo_cache_capacity_two_evicts_oldest() {
    let mut c = FiloCache::new(2);
    let _ = c.put("a".to_string(), row(&["ra"]));
    let _ = c.put("b".to_string(), row(&["rb"]));
    let _ = c.put("c".to_string(), row(&["rc"]));
    assert_eq!(c.get("a".to_string()), None);
    assert_eq!(c.get("b".to_string()), Some(&row(&["rb"])));
    assert_eq!(c.get("c".to_string()), Some(&row(&["rc"])));
}

#[test]
fn fifo_cache_eviction_ignores_recency_of_gets() {
    let mut c = FiloCache::new(2);
    let _ = c.put("a".to_string(), row(&["ra"]));
    let _ = c.put("b".to_string(), row(&["rb"]));
    assert!(c.get("a".to_string()).is_some());
    let _ = c.put("c".to_string(), row(&["rc"]));
    assert_eq!(c.get("a".to_string()), None);
    assert!(c.get("b".to_string()).is_some());
}

#[test]
fn fifo_cache_capacity_zero_retains_nothing() {
    let mut c = FiloCache::new(0);
    for k in ["a", "b", "c"] {
        let r = c.put(k.to_string(), row(&["r"]));
        assert_eq!(r, Err(k.to_string()));
        assert_eq!(c.get(k.to_string()), None);
    }
}

#[test]
fn fifo_cache_put_reports_the_evicted_key() {
    let mut c = FiloCache::new(1);
    assert_eq!(c.put("a".to_string(), row(&["ra"])), Ok("a".to_string()));
    assert_eq!(c.put("b".to_string(), row(&["rb"])), Ok("a".to_string()));
    assert_eq!(c.put("c".to_string(), row(&["rc"])), Ok("b".to_string()));
}

#[test]
fn fifo_cache_within_capacity_keeps_everything() {
    let mut c = FiloCache::new(3);
    let _ = c.put("a".to_string(), row(&["ra"]));
    let _ = c.put("b".to_string(), row(&["rb"]));
    assert_eq!(c.get("a".to_string()), Some(&row(&["ra"])));
    assert_eq!(c.get("b".to_string()), Some(&row(&["rb"])));
    assert_eq!(c.get("missing".to_string()), None);
}
