use oderom::block::{Block, BlockId};
use oderom::persist::{is_delimiter_line, parse_sources, render};

fn blocks(sources: &[&str]) -> Vec<Block> {
    sources.iter().enumerate().map(|(i, s)| Block::new(BlockId(i as u64), s.to_string())).collect()
}

#[test]
fn render_then_parse_sources_round_trips_block_boundaries() {
    let nb = blocks(&["manifold M dim 4", "chart schw on M coords (t, r)", "kretschmann"]);
    let text = render(&nb).unwrap();
    let sources = parse_sources(&text);
    assert_eq!(sources, vec!["manifold M dim 4", "chart schw on M coords (t, r)", "kretschmann"]);
}

#[test]
fn a_block_containing_the_literal_delimiter_line_refuses_to_render() {
    let nb = blocks(&["manifold M dim 4", "some text\n%%\nmore text"]);
    let err = render(&nb).unwrap_err();
    assert_eq!(err.block_number, 2);
}

#[test]
fn an_empty_file_loads_as_zero_blocks() {
    assert_eq!(parse_sources(""), Vec::<String>::new());
    assert_eq!(parse_sources("   \n  \n"), Vec::<String>::new());
}

#[test]
fn a_single_block_with_no_delimiter_round_trips() {
    let nb = blocks(&["kretschmann"]);
    let text = render(&nb).unwrap();
    assert_eq!(text, "kretschmann\n");
    assert_eq!(parse_sources(&text), vec!["kretschmann"]);
}

#[test]
fn delimiter_lines_tolerate_trailing_carriage_returns_only() {
    assert!(is_delimiter_line("%%"));
    assert!(is_delimiter_line("%%\r\r"));
    assert!(!is_delimiter_line(" %%"));
    assert!(!is_delimiter_line("%%%"));
    assert_eq!(parse_sources("a\r\n%%\r\nb\r\n"), vec!["a", "b"]);
}

#[test]
fn a_multi_line_block_keeps_its_inner_newlines() {
    let nb = blocks(&["manifold M dim 4\nbundle TM on M dim 4", "", "kretschmann"]);
    let text = render(&nb).unwrap();
    assert_eq!(text, "manifold M dim 4\nbundle TM on M dim 4\n%%\n\n%%\nkretschmann\n");
    assert_eq!(parse_sources(&text), vec!["manifold M dim 4\nbundle TM on M dim 4", "", "kretschmann"]);
}

#[test]
fn a_freshly_created_block_is_never_obsolete() {
    let b = Block::new(BlockId(0), "kretschmann".to_string());
    assert!(!b.is_obsolete());
    let mut run = Block::new(BlockId(1), "x".to_string());
    run.execution_count = Some(1);
    run.executed_source = Some("x".to_string());
    assert!(!run.is_obsolete());
    run.source = "y".to_string();
    assert!(run.is_obsolete());
    run.source = "x".to_string();
    assert!(!run.is_obsolete());
    run.obsolete_by_cascade = true;
    assert!(run.is_obsolete());
}
