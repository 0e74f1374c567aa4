use semantic_search::chunk::{
    fallback_text_chunks, push_ast_chunk, push_text_chunk, validate_chunks, CastChunk,
    CastChunkingOptions,
};
use semantic_search::split::split_ranges;
use semantic_search::syntax::{
    cast_chunks_for_buffer, cast_chunks_for_node, select_full_buffer_root, BufferSnapshot,
    SyntaxNode,
};
use semantic_search::text::{non_whitespace_size, range_non_whitespace_size};
use std::ops::Range;

fn syntax_node(node: tree_sitter::Node) -> SyntaxNode {
    let mut cursor = node.walk();
    SyntaxNode {
        start_byte: node.start_byte(),
        end_byte: node.end_byte(),
        kind: node.kind().to_string(),
        named_children: node
            .named_children(&mut cursor)
            .map(syntax_node)
            .collect(),
    }
}

fn parse_rust(source: &str) -> SyntaxNode {
    let mut parser = tree_sitter::Parser::new();
    parser
        .set_language(&tree_sitter_rust::LANGUAGE.into())
        .expect("Rust parser should load");
    let tree = parser.parse(source, None).expect("source should parse");
    syntax_node(tree.root_node())
}

fn parse_rust_and_chunk(source: &str, max_size: usize) -> Vec<CastChunk> {
    cast_chunks_for_node(source, &parse_rust(source), max_size)
}

fn rust_snapshot(source: &str) -> BufferSnapshot {
    BufferSnapshot {
        text: source.to_string(),
        syntax_layers: vec![parse_rust(source)],
    }
}

fn reconstruct(source: &str, chunks: &[CastChunk]) -> String {
    chunks
        .iter()
        .map(|chunk| &source[chunk.byte_range.clone()])
        .collect::<String>()
}

fn test_chunk(byte_range: Range<usize>) -> CastChunk {
    CastChunk {
        non_whitespace_size: byte_range.len(),
        byte_range,
        primary_node_kind: None,
        merged_node_count: 0,
    }
}

fn leaf(kind: &str, range: Range<usize>) -> SyntaxNode {
    SyntaxNode {
        start_byte: range.start,
        end_byte: range.end,
        kind: kind.to_string(),
        named_children: Vec::new(),
    }
}

#[test]
fn cast_chunking_options_can_be_disabled() {
    assert_eq!(
        CastChunkingOptions::disabled(128),
        CastChunkingOptions {
            enabled: false,
            max_size: 128,
        }
    );
}

#[test]
fn disabled_buffer_adapter_returns_none() {
    let snapshot = rust_snapshot("fn a() {}");
    assert_eq!(
        cast_chunks_for_buffer(&snapshot, CastChunkingOptions::disabled(16)),
        None
    );
}

#[test]
fn enabled_buffer_adapter_returns_ast_chunks() {
    let source = "fn a() {\n    one();\n}\n\nfn b() {\n    two();\n}\n";
    let snapshot = rust_snapshot(source);
    let chunks = cast_chunks_for_buffer(&snapshot, CastChunkingOptions::enabled(18))
        .expect("enabled adapter should return chunks for parsed Rust buffer");

    assert_eq!(reconstruct(source, &chunks), source);
    assert!(chunks.len() >= 2);
    assert!(chunks.iter().all(|chunk| chunk.non_whitespace_size > 0));
}

#[test]
fn enabled_buffer_adapter_returns_none_without_syntax() {
    let snapshot = BufferSnapshot {
        text: "plain text without a language".to_string(),
        syntax_layers: Vec::new(),
    };
    assert_eq!(
        cast_chunks_for_buffer(&snapshot, CastChunkingOptions::enabled(18)),
        None
    );
}

#[test]
fn counts_non_whitespace_characters() {
    assert_eq!(non_whitespace_size(" fn a() {\n    b();\n}\n"), 11);
}

#[test]
fn fallback_split_preserves_source_text() {
    let source = "alpha beta\ngamma delta\nepsilon";
    let chunks = fallback_text_chunks(source, 0..source.len(), 10);
    assert_eq!(reconstruct(source, &chunks), source);
    assert!(chunks.iter().all(|chunk| chunk.non_whitespace_size <= 10));
    assert_eq!(chunks.len(), 3);
}

#[test]
fn fallback_split_handles_tiny_budget_without_invalid_utf8() {
    let source = "ééé";
    let chunks = fallback_text_chunks(source, 0..source.len(), 1);
    assert_eq!(reconstruct(source, &chunks), source);
    assert_eq!(chunks.len(), 3);
    assert!(chunks
        .iter()
        .all(|chunk| source.is_char_boundary(chunk.byte_range.start)));
    assert!(chunks
        .iter()
        .all(|chunk| source.is_char_boundary(chunk.byte_range.end)));
}

#[test]
fn fallback_split_does_not_exceed_budget_after_line_boundary() {
    let source = "\nabcdefghijk";
    let chunks = fallback_text_chunks(source, 0..source.len(), 10);
    assert_eq!(reconstruct(source, &chunks), source);
    assert!(chunks.iter().all(|chunk| chunk.non_whitespace_size <= 10));
}

#[test]
fn fallback_split_rejects_invalid_ranges_without_panicking() {
    assert!(fallback_text_chunks("éx", 1..3, 1).is_empty());
    let reversed_start = 2;
    let reversed_end = 1;
    assert!(fallback_text_chunks("abc", reversed_start..reversed_end, 1).is_empty());
}

#[test]
fn whole_root_that_fits_returns_one_chunk() {
    let source = "fn a() {}\n";
    let chunks = parse_rust_and_chunk(source, 32);
    assert_eq!(chunks.len(), 1);
    assert_eq!(chunks[0].byte_range, 0..source.len());
    assert_eq!(reconstruct(source, &chunks), source);
}

#[test]
fn root_selection_prefers_full_buffer_root_over_partial_root_at_zero() {
    let partial_tree = parse_rust("fn a() {}\n");
    let full_source = "fn a() {}\nfn b() {}\n";
    let full_tree = parse_rust(full_source);

    let roots = [partial_tree, full_tree];
    let selected = select_full_buffer_root(&roots, full_source.len())
        .expect("full-buffer root should be selected");

    assert_eq!(selected.start_byte, 0);
    assert_eq!(selected.end_byte, full_source.len());
}

#[test]
fn root_selection_rejects_partial_roots() {
    let partial_tree = parse_rust("fn a() {}\n");
    assert!(select_full_buffer_root(&[partial_tree], "fn a() {}\nfn b() {}\n".len()).is_none());
}

#[test]
fn preserves_comments_and_blank_lines_between_nodes() {
    let source = "// leading comment\n\nfn a() {}\n\n// between\nfn b() {}\n";
    let chunks = parse_rust_and_chunk(source, 12);
    assert_eq!(reconstruct(source, &chunks), source);
    assert!(chunks
        .iter()
        .any(|chunk| source[chunk.byte_range.clone()].contains("between")));
}

#[test]
fn validates_ordered_non_overlapping_chunks() {
    let source = "abcdef";
    let valid = vec![test_chunk(0..3), test_chunk(3..6)];
    assert!(validate_chunks(&valid, source));

    let overlapping = vec![test_chunk(0..4), test_chunk(3..6)];
    assert!(!validate_chunks(&overlapping, source));
}

#[test]
fn validation_rejects_incomplete_or_invalid_coverage() {
    assert!(!validate_chunks(
        &[test_chunk(0..2), test_chunk(3..6)],
        "abcdef"
    ));
    assert!(!validate_chunks(&[test_chunk(1..6)], "abcdef"));
    assert!(!validate_chunks(&[test_chunk(0..5)], "abcdef"));
    assert!(!validate_chunks(&[test_chunk(0..1)], "é"));
    assert!(!validate_chunks(&[], "abcdef"));
}

#[test]
fn preserves_top_level_function_boundaries_when_possible() {
    let source = "fn a() {\n    one();\n}\n\nfn b() {\n    two();\n}\n";
    let chunks = parse_rust_and_chunk(source, 18);
    let chunk_texts: Vec<&str> = chunks
        .iter()
        .map(|chunk| &source[chunk.byte_range.clone()])
        .collect();

    assert_eq!(
        chunk_texts,
        vec!["fn a() {\n    one();\n}\n\n", "fn b() {\n    two();\n}\n"]
    );
    assert_eq!(reconstruct(source, &chunks), source);
}

#[test]
fn merges_adjacent_small_siblings_until_budget_is_reached() {
    let source = "use a::A;\nuse b::B;\nuse c::C;\nfn main() {}\n";
    let chunks = parse_rust_and_chunk(source, 24);
    let chunk_texts: Vec<&str> = chunks
        .iter()
        .map(|chunk| &source[chunk.byte_range.clone()])
        .collect();

    assert_eq!(
        chunk_texts,
        vec!["use a::A;\nuse b::B;\nuse c::C;\n", "fn main() {}\n"]
    );
    assert_eq!(chunks[0].merged_node_count, 3);
    assert_eq!(reconstruct(source, &chunks), source);
}

#[test]
fn oversized_node_recursively_splits_children() {
    let source = "fn main() {\n    let a = 1;\n    let b = 2;\n    let c = 3;\n}\n";
    let chunks = parse_rust_and_chunk(source, 12);
    assert!(chunks.len() > 1);
    assert_eq!(reconstruct(source, &chunks), source);
    assert!(chunks.iter().all(|chunk| !chunk.byte_range.is_empty()));
    assert!(chunks.iter().all(|chunk| chunk.non_whitespace_size <= 12));
}

#[test]
fn trailing_non_named_gap_is_split_to_budget() {
    let source = "fn a() {}\n/*abcdefghijklmnop*/";
    let max_size = 8;
    let chunks = parse_rust_and_chunk(source, max_size);

    assert_eq!(reconstruct(source, &chunks), source);
    assert!(chunks
        .iter()
        .all(|chunk| chunk.non_whitespace_size <= max_size.max(1)));
}

#[test]
fn unnamed_function_syntax_is_budgeted_when_splitting_children() {
    let source = "fn main() {\n    let alpha = beta;\n}\n";
    let max_size = 6;
    let chunks = parse_rust_and_chunk(source, max_size);

    assert_eq!(reconstruct(source, &chunks), source);
    assert!(chunks
        .iter()
        .all(|chunk| chunk.non_whitespace_size <= max_size.max(1)));
}

#[test]
fn sizes_of_ranges_count_only_slices() {
    let source = "a é\n b";
    assert_eq!(range_non_whitespace_size(source, 0..source.len()), 3);
    assert_eq!(range_non_whitespace_size(source, 0..2), 1);
    assert_eq!(range_non_whitespace_size(source, 0..3), 0);
    assert_eq!(range_non_whitespace_size(source, 0..100), 0);
}

#[test]
fn empty_ranges_give_no_chunk() {
    let mut chunks = Vec::new();
    push_text_chunk("abc", &mut chunks, 2..2);
    assert!(chunks.is_empty());
    push_text_chunk("a c", &mut chunks, 0..3);
    push_ast_chunk("a c", &mut chunks, 1..3, Some("word".to_string()), 2);
    assert_eq!(
        chunks,
        vec![
            CastChunk {
                byte_range: 0..3,
                non_whitespace_size: 2,
                primary_node_kind: None,
                merged_node_count: 0,
            },
            CastChunk {
                byte_range: 1..3,
                non_whitespace_size: 1,
                primary_node_kind: Some("word".to_string()),
                merged_node_count: 2,
            },
        ]
    );
}

#[test]
fn a_limit_of_zero_counts_as_one() {
    let chunks = fallback_text_chunks("abc", 0..3, 0);
    assert_eq!(chunks.len(), 3);
    assert!(chunks.iter().all(|chunk| chunk.non_whitespace_size == 1));
}

#[test]
fn strict_and_loose_cuts_differ_where_a_line_starts_late() {
    let text = "a\nbcd";
    assert_eq!(split_ranges(text, 10, 2, true), vec![10..12, 12..14, 14..15]);
    assert_eq!(split_ranges(text, 10, 2, false), vec![10..12, 12..14, 14..15]);
    let text = "\nabc";
    assert_eq!(split_ranges(text, 0, 2, true), vec![0..3, 3..4]);
    assert_eq!(split_ranges(text, 0, 2, false), vec![0..1, 1..4]);
}

#[test]
fn neighbouring_text_chunks_exceed_the_limit_together() {
    let source = "ab cd\n\nef\nghijkl\n\n  mn o\np";
    for max_size in 1..8 {
        let chunks = fallback_text_chunks(source, 0..source.len(), max_size);
        for pair in chunks.windows(2) {
            assert!(pair[0].non_whitespace_size + pair[1].non_whitespace_size > max_size);
            let text = &source[pair[0].byte_range.clone()];
            if !text.ends_with('\n') {
                assert_eq!(pair[0].non_whitespace_size, max_size);
                assert!(!text.trim_start().contains('\n'));
            }
        }
    }
}

#[test]
fn children_of_the_root_that_fit_are_not_cut() {
    let source = "use a::A;\n\nfn main() { let x = 1; }\n// note\nstruct B;\nfn c() {}\n";
    let root = parse_rust(source);
    for max_size in 1..40 {
        let chunks = cast_chunks_for_node(source, &root, max_size);
        for child in &root.named_children {
            let range = child.start_byte..child.end_byte;
            if range_non_whitespace_size(source, range.clone()) <= max_size {
                let holding = chunks
                    .iter()
                    .filter(|chunk| {
                        chunk.byte_range.start <= range.start && range.end <= chunk.byte_range.end
                    })
                    .count();
                assert_eq!(holding, 1);
            }
        }
    }
}

#[test]
fn roots_with_equal_ends_are_decided_by_the_last() {
    let roots = [leaf("first", 0..9), leaf("second", 0..9), leaf("third", 1..12)];
    let selected = select_full_buffer_root(&roots, 9).expect("a root covers the buffer");
    assert_eq!(selected.kind, "second");
}

#[test]
fn a_root_past_the_text_gives_no_chunks() {
    let snapshot = BufferSnapshot {
        text: "abc".to_string(),
        syntax_layers: vec![leaf("file", 0..7)],
    };
    assert_eq!(
        cast_chunks_for_buffer(&snapshot, CastChunkingOptions::enabled(8)),
        None
    );
}

#[test]
fn children_that_overlap_are_cut_to_what_is_left() {
    let source = "aaaa bbbb cccc";
    let root = SyntaxNode {
        start_byte: 0,
        end_byte: source.len(),
        kind: "file".to_string(),
        named_children: vec![leaf("x", 0..9), leaf("y", 5..14)],
    };
    let chunks = cast_chunks_for_node(source, &root, 8);
    assert_eq!(reconstruct(source, &chunks), source);
    assert!(chunks.iter().all(|chunk| chunk.non_whitespace_size <= 8));
}

#[test]
fn cloned_chunks_are_equal() {
    let chunk = CastChunk {
        byte_range: 3..9,
        non_whitespace_size: 5,
        primary_node_kind: Some("item".to_string()),
        merged_node_count: 2,
    };
    assert_eq!(chunk.clone(), chunk);
}
