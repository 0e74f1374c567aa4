use semantic_search::chunk::{CastChunk, CastChunkingOptions};
use semantic_search::index::{
    build_fallback_indexed_text_chunks, build_indexed_chunks, enclosing_symbol_for_parent,
    is_parent_like_chunk, parent_symbol_name, CodeChunkId, CodeChunkTopology, IndexedCodeChunk,
    ParentScope,
};
use semantic_search::project::{
    assign_project_chunk_ids, collect_semantic_search_project_files, index_file,
    invalid_include_pattern, remap_chunk_id_list, remap_optional_chunk_id, ProjectEntry,
    ProjectIndexBuilder, SemanticSearchIndexingSettings,
};
use semantic_search::scope::{
    byte_range_to_line_range, is_parent_like_node_kind, is_parent_like_source_text,
    matching_brace_scope, usize_to_u32_saturating,
};
use semantic_search::store::{embed_code_search_index, embedding_texts, CodeSearchIndex};
use semantic_search::syntax::{cast_chunks_for_buffer, BufferSnapshot, SyntaxNode};
use semantic_search::tokens::tokenize_for_search;
use std::collections::HashMap;

fn chunk(id: usize, text: &str, parent: Option<usize>) -> IndexedCodeChunk {
    IndexedCodeChunk {
        id: CodeChunkId(id),
        worktree_id: None,
        path: "root/src/lib.rs".to_string(),
        byte_range: 0..text.len(),
        line_range: 0..1,
        text: text.to_string(),
        non_whitespace_size: text.chars().filter(|ch| !ch.is_whitespace()).count(),
        primary_node_kind: None,
        topology: CodeChunkTopology {
            parent: parent.map(CodeChunkId),
            children: Vec::new(),
            previous_sibling: None,
            next_sibling: None,
            enclosing_symbols: Vec::new(),
        },
        embedding: Vec::new(),
        lexical_terms: tokenize_for_search(text),
    }
}

fn cast_chunk(range: std::ops::Range<usize>, size: usize, kind: &str) -> CastChunk {
    CastChunk {
        byte_range: range,
        non_whitespace_size: size,
        primary_node_kind: Some(kind.to_string()),
        merged_node_count: 1,
    }
}

fn syntax_node(node: tree_sitter::Node) -> SyntaxNode {
    let mut cursor = node.walk();
    SyntaxNode {
        start_byte: node.start_byte(),
        end_byte: node.end_byte(),
        kind: node.kind().to_string(),
        named_children: node
            .named_children(&mut cursor)
            .map(syntax_node)
            .collect(),
    }
}

fn rust_snapshot(source: &str) -> BufferSnapshot {
    let mut parser = tree_sitter::Parser::new();
    parser
        .set_language(&tree_sitter_rust::LANGUAGE.into())
        .expect("Rust parser should load");
    let tree = parser.parse(source, None).expect("source should parse");
    BufferSnapshot {
        text: source.to_string(),
        syntax_layers: vec![syntax_node(tree.root_node())],
    }
}

fn entry(path: &str, size: u64) -> ProjectEntry {
    ProjectEntry {
        worktree_id: 1,
        path: path.to_string(),
        display_path: format!("root/{path}"),
        is_file: true,
        is_ignored: false,
        size,
        matches_pattern: None,
        globally_excluded: false,
        globally_private: false,
        worktree_excluded: false,
        worktree_private: false,
    }
}

fn indexing_settings(max_bytes: usize, max_size: usize) -> SemanticSearchIndexingSettings {
    SemanticSearchIndexingSettings {
        include_pattern: None,
        max_indexed_file_bytes: max_bytes,
        chunk_max_non_whitespace_size: max_size,
    }
}

#[test]
fn project_chunk_id_assignment_remaps_topology_references() {
    let mut parent = chunk(1, "impl Player {", None);
    parent.topology.children.push(CodeChunkId(2));
    parent.topology.next_sibling = Some(CodeChunkId(2));

    let mut child = chunk(2, "fn movement_speed() {}", Some(1));
    child.topology.previous_sibling = Some(CodeChunkId(1));

    let mut file_chunks = vec![parent, child];
    let mut next_chunk_id = 4;
    assign_project_chunk_ids(&mut file_chunks, &mut next_chunk_id, Some(10));

    assert_eq!(file_chunks[0].id, CodeChunkId(4));
    assert_eq!(file_chunks[0].worktree_id, Some(10));
    assert_eq!(file_chunks[0].topology.children, vec![CodeChunkId(5)]);
    assert_eq!(file_chunks[0].topology.next_sibling, Some(CodeChunkId(5)));

    assert_eq!(file_chunks[1].id, CodeChunkId(5));
    assert_eq!(file_chunks[1].worktree_id, Some(10));
    assert_eq!(file_chunks[1].topology.parent, Some(CodeChunkId(4)));
    assert_eq!(
        file_chunks[1].topology.previous_sibling,
        Some(CodeChunkId(4))
    );
    assert_eq!(next_chunk_id, 6);
}

#[test]
fn parent_like_node_kind_recognizes_declaration_containers() {
    assert!(is_parent_like_node_kind("struct_item"));
    assert!(is_parent_like_node_kind("impl_item"));
    assert!(is_parent_like_node_kind("class_declaration"));
    assert!(!is_parent_like_node_kind("identifier"));
    assert!(!is_parent_like_node_kind("primitive_type"));
}

#[test]
fn fallback_text_chunks_are_utf8_safe_and_cover_source() {
    let source = "alpha βeta\ngamma delta\nemoji 😀 done\n";
    let chunks = build_fallback_indexed_text_chunks("root/src/text.txt", source, 8);

    assert!(!chunks.is_empty());
    assert_eq!(
        chunks
            .iter()
            .map(|chunk| chunk.text.as_str())
            .collect::<String>(),
        source
    );
    assert!(chunks
        .iter()
        .all(|chunk| source.get(chunk.byte_range.clone()).is_some()));
}

#[test]
fn fallback_text_chunks_respect_non_whitespace_budget_when_possible() {
    let source = "one two three\nfour five six\n";
    let chunks = build_fallback_indexed_text_chunks("root/src/text.txt", source, 8);

    assert!(chunks.len() > 1);
    assert!(chunks
        .iter()
        .all(|chunk| chunk.non_whitespace_size <= 8 || !chunk.text.contains('\n')));
}

#[test]
fn flat_cast_index_links_following_chunks_to_parent_like_source_chunk() {
    let source = "impl Player {\n    fn movement_speed(&self) -> f32 { self.speed }\n}\n";
    let indexed = build_indexed_chunks(
        "root/src/player.rs",
        source,
        vec![
            cast_chunk(0..12, 10, "type_identifier"),
            cast_chunk(12..source.len(), 42, "identifier"),
        ],
    );

    assert_eq!(indexed[1].topology.parent, Some(CodeChunkId(1)));
    assert_eq!(indexed[0].topology.children, vec![CodeChunkId(2)]);
}

#[test]
fn cast_index_does_not_seed_self_symbols() {
    let source = "struct Player {\n    speed: f32,\n}\n";
    let indexed = build_indexed_chunks(
        "root/src/player.rs",
        source,
        vec![cast_chunk(0..source.len(), 24, "struct_item")],
    );

    assert!(indexed[0].topology.enclosing_symbols.is_empty());
    assert_eq!(indexed[0].primary_node_kind.as_deref(), Some("struct_item"));
}

#[test]
fn flat_cast_index_adds_parent_symbol_to_child() {
    let source = "impl Player {\n    fn movement_speed(&self) -> f32 { self.speed }\n}\n";
    let indexed = build_indexed_chunks(
        "root/src/player.rs",
        source,
        vec![
            cast_chunk(0..12, 10, "type_identifier"),
            cast_chunk(12..source.len(), 42, "identifier"),
        ],
    );

    let child_symbols = &indexed[1].topology.enclosing_symbols;
    assert!(child_symbols.iter().any(|symbol| {
        symbol.name == "impl Player" && symbol.kind.as_deref() == Some("type_identifier")
    }));
}

#[test]
fn flat_cast_index_requires_matched_scope_for_parent_fallback() {
    let source = "impl Player\nfn movement_speed(&self) -> f32 { self.speed }\n";
    let child_start = source.find("fn movement_speed").unwrap();
    let indexed = build_indexed_chunks(
        "root/src/player.rs",
        source,
        vec![
            cast_chunk(0..child_start, 10, "type_identifier"),
            cast_chunk(child_start..source.len(), 42, "identifier"),
        ],
    );

    assert_eq!(indexed[1].topology.parent, None);
    assert!(indexed[0].topology.children.is_empty());
}

#[test]
fn flat_cast_index_does_not_attach_later_top_level_function_to_impl() {
    let source = "impl Player {\n    fn movement_speed(&self) -> f32 { self.speed }\n}\n\nfn top_level() {}\n";
    let method_start = source.find("fn movement_speed").unwrap();
    let top_level_start = source.find("fn top_level").unwrap();
    let indexed = build_indexed_chunks(
        "root/src/player.rs",
        source,
        vec![
            cast_chunk(0..method_start, 10, "type_identifier"),
            cast_chunk(method_start..top_level_start, 42, "identifier"),
            cast_chunk(top_level_start..source.len(), 12, "function_item"),
        ],
    );

    assert_eq!(indexed[1].topology.parent, Some(CodeChunkId(1)));
    assert_eq!(indexed[2].topology.parent, None);
    assert_eq!(indexed[0].topology.children, vec![CodeChunkId(2)]);
}

#[test]
fn cast_index_preserves_parent_topology_for_rust_items() {
    let source = "struct Player {\n    speed: f32,\n}\n\nimpl Player {\n    fn movement_speed(&self) -> f32 { self.speed }\n}\n";
    let snapshot = rust_snapshot(source);
    let chunks = cast_chunks_for_buffer(&snapshot, CastChunkingOptions::enabled(24))
        .expect("Rust syntax should produce chunks");
    let indexed = build_indexed_chunks("root/src/player.rs", source, chunks);
    assert!(indexed.iter().any(|chunk| chunk.topology.parent.is_some()));
    assert!(indexed
        .iter()
        .any(|chunk| !chunk.topology.enclosing_symbols.is_empty()));
}

#[test]
fn project_index_respects_include_pattern_and_file_size() {
    let mut auth = entry("src/auth.rs", 31);
    auth.matches_pattern = Some(true);
    let mut large = entry("src/large.rs", 80);
    large.matches_pattern = Some(true);
    let mut ui = entry("src/ui.ts", 26);
    ui.matches_pattern = Some(false);
    let mut top_level = entry("large.rs", 23);
    top_level.matches_pattern = Some(false);
    let settings = SemanticSearchIndexingSettings {
        include_pattern: Some("root/src/*.rs".to_string()),
        max_indexed_file_bytes: 48,
        chunk_max_non_whitespace_size: 1600,
    };

    let files =
        collect_semantic_search_project_files(vec![top_level, auth, large, ui], &settings);
    assert_eq!(files.len(), 1);

    let mut builder = ProjectIndexBuilder::new();
    for file in files {
        let snapshot = rust_snapshot("fn retry_login() { backoff(); }");
        let chunks = index_file(&file.display_path, &snapshot, &settings);
        builder = builder.add_file(chunks, Some(file.worktree_id));
    }
    let indexed = builder.finish();
    let paths: Vec<&str> = indexed
        .chunks()
        .into_iter()
        .map(|chunk| chunk.path.as_str())
        .collect();
    assert!(paths.iter().any(|path| path.ends_with("src/auth.rs")));
    assert!(!paths.iter().any(|path| path.ends_with("src/ui.ts")));
    assert!(!paths.iter().any(|path| path.ends_with("large.rs")));
}

#[test]
fn a_pattern_takes_only_what_is_known_to_match() {
    let entries = || {
        [Some(true), Some(false), None]
            .into_iter()
            .enumerate()
            .map(|(place, matched)| {
                let mut listed = entry(&format!("file{place}.rs"), 10);
                listed.matches_pattern = matched;
                listed
            })
            .collect()
    };
    let mut settings = indexing_settings(100, 100);
    let all = collect_semantic_search_project_files(entries(), &settings);
    assert_eq!(all.len(), 3);
    settings.include_pattern = Some("*.rs".to_string());
    let matching = collect_semantic_search_project_files(entries(), &settings);
    assert_eq!(matching.len(), 1);
    assert_eq!(matching[0].path, "file0.rs");
}

#[test]
fn excluded_private_and_foreign_entries_are_left_out() {
    let settings = indexing_settings(100, 100);
    let mut entries = Vec::new();
    for place in 0..7 {
        let mut other = entry(&format!("file{place}.rs"), 100);
        match place {
            0 => other.is_file = false,
            1 => other.globally_excluded = true,
            2 => other.globally_private = true,
            3 => other.worktree_excluded = true,
            4 => other.worktree_private = true,
            5 => other.is_ignored = true,
            _ => {}
        }
        entries.push(other);
    }
    entries.push(entry("too_large.rs", 101));
    let files = collect_semantic_search_project_files(entries, &settings);
    assert_eq!(files.len(), 1);
    assert_eq!(files[0].path, "file6.rs");
    assert_eq!(files[0].display_path, "root/file6.rs");
    assert_eq!(files[0].size, 100);
    assert_eq!(
        invalid_include_pattern("unclosed bracket"),
        "invalid include_pattern: unclosed bracket"
    );
}

#[test]
fn files_of_a_project_get_consecutive_identifiers() {
    let settings = indexing_settings(1000, 8);
    let plain = BufferSnapshot {
        text: "one two three\nfour five six\n".to_string(),
        syntax_layers: Vec::new(),
    };
    let first = index_file("root/a.txt", &plain, &settings);
    let second = index_file("root/b.txt", &plain, &settings);
    let (a, b) = (first.len(), second.len());
    let builder = ProjectIndexBuilder::new()
        .add_file(first, Some(7))
        .add_file(second, None);
    assert_eq!(builder.len(), a + b);
    let index = builder.finish();
    assert_eq!(index.chunk_ids(), (1..=a + b).collect::<Vec<_>>());
    let chunks = index.chunks();
    assert_eq!(chunks[a].path, "root/b.txt");
    assert_eq!(chunks[a].worktree_id, None);
    assert_eq!(chunks[a].topology.previous_sibling, None);
    assert_eq!(chunks[a - 1].topology.next_sibling, None);
    assert_eq!(chunks[a].topology.next_sibling, Some(CodeChunkId(a + 2)));
    assert_eq!(chunks[0].worktree_id, Some(7));
}

#[test]
fn references_without_a_target_are_dropped() {
    let mut table = HashMap::new();
    table.insert(1, CodeChunkId(11));
    table.insert(3, CodeChunkId(13));
    assert_eq!(
        remap_optional_chunk_id(Some(CodeChunkId(3)), &table),
        Some(CodeChunkId(13))
    );
    assert_eq!(remap_optional_chunk_id(Some(CodeChunkId(2)), &table), None);
    assert_eq!(remap_optional_chunk_id(None, &table), None);
    assert_eq!(
        remap_chunk_id_list(vec![CodeChunkId(3), CodeChunkId(2), CodeChunkId(1)], &table),
        vec![CodeChunkId(13), CodeChunkId(11)]
    );
}

#[test]
fn chunks_held_by_several_belong_to_the_shortest() {
    let source = "aaaaaaaaaa";
    let indexed = build_indexed_chunks(
        "a",
        source,
        vec![
            cast_chunk(0..10, 10, "outer"),
            cast_chunk(2..8, 6, "middle"),
            cast_chunk(3..5, 2, "inner"),
            cast_chunk(2..8, 6, "same"),
        ],
    );
    assert_eq!(indexed[0].topology.parent, None);
    assert_eq!(indexed[1].topology.parent, Some(CodeChunkId(4)));
    assert_eq!(indexed[2].topology.parent, Some(CodeChunkId(2)));
    assert_eq!(indexed[3].topology.parent, Some(CodeChunkId(2)));
    assert_eq!(indexed[0].topology.children, Vec::new());
    assert_eq!(
        indexed[1].topology.children,
        vec![CodeChunkId(3), CodeChunkId(4)]
    );
    assert_eq!(indexed[3].topology.children, vec![CodeChunkId(2)]);
    assert_eq!(indexed[2].topology.enclosing_symbols.len(), 1);
    assert_eq!(indexed[2].topology.enclosing_symbols[0].byte_range, 2..8);
}

#[test]
fn siblings_are_the_neighbours() {
    let indexed = build_fallback_indexed_text_chunks("a", "ab cd ef", 2);
    assert_eq!(indexed.len(), 3);
    assert_eq!(indexed[0].topology.previous_sibling, None);
    assert_eq!(indexed[0].topology.next_sibling, Some(CodeChunkId(2)));
    assert_eq!(indexed[2].topology.previous_sibling, Some(CodeChunkId(2)));
    assert_eq!(indexed[2].topology.next_sibling, None);
    assert!(build_fallback_indexed_text_chunks("a", "", 2).is_empty());
}

#[test]
fn lines_are_counted_from_the_source() {
    let source = "a\nb\nc";
    assert_eq!(byte_range_to_line_range(source, 0..1), 0..1);
    assert_eq!(byte_range_to_line_range(source, 2..5), 1..3);
    assert_eq!(byte_range_to_line_range(source, 4..100), 2..3);
    assert_eq!(byte_range_to_line_range(source, 100..0), 2..3);
    assert_eq!(usize_to_u32_saturating(7), 7);
    assert_eq!(usize_to_u32_saturating(usize::MAX), u32::MAX);
}

#[test]
fn scopes_end_before_what_follows_the_closing_brace() {
    let source = "mod a { {x} }  fn b() {}";
    assert_eq!(matching_brace_scope(source, 0..6), Some(0..15));
    assert_eq!(matching_brace_scope(source, 0..5), Some(0..15));
    assert_eq!(matching_brace_scope(source, 0..3), None);
    assert_eq!(matching_brace_scope("mod a { {x}", 0..6), None);
    assert_eq!(matching_brace_scope("mod a;", 0..6), None);
    assert_eq!(matching_brace_scope("mod a {}", 0..6), Some(0..8));
    assert_eq!(matching_brace_scope("{}", 9..9), None);
}

#[test]
fn parents_are_named_by_their_first_line() {
    let mut parent = chunk(1, "  impl Player {{\n}", None);
    assert_eq!(parent_symbol_name(&parent), "impl Player");
    parent.text = "\r\nrest".to_string();
    assert_eq!(parent_symbol_name(&parent), "parent");
    parent.primary_node_kind = Some("impl_item".to_string());
    assert_eq!(parent_symbol_name(&parent), "impl_item");
    assert!(is_parent_like_chunk(&parent));
    let symbol = enclosing_symbol_for_parent(&parent);
    assert_eq!(symbol.kind.as_deref(), Some("impl_item"));
    assert_eq!(symbol.line_range, 0..1);
    assert!(is_parent_like_source_text("\n\t namespace x"));
    assert!(!is_parent_like_source_text("implement x"));
    let opened = ParentScope::new("mod a { }", &chunk(3, "mod a", None)).unwrap();
    assert_eq!(opened.parent_id, CodeChunkId(3));
    assert!(opened.contains(&chunk(4, "mod a", None)));
}

#[test]
fn later_chunks_replace_earlier_ones_with_the_same_identifier() {
    let index = CodeSearchIndex::from_chunks(vec![
        chunk(3, "three", None),
        chunk(1, "one", None),
        chunk(3, "drei", None),
    ]);
    assert_eq!(index.chunk_ids(), vec![1, 3]);
    assert_eq!(index.chunk(CodeChunkId(3)).unwrap().text, "drei");
    assert!(index.chunk(CodeChunkId(2)).is_none());
    assert_eq!(embedding_texts(&index), vec!["one", "drei"]);
}

#[test]
fn embeddings_are_handed_out_in_the_order_of_identifiers() {
    let index =
        CodeSearchIndex::from_chunks(vec![chunk(2, "two", None), chunk(1, "one", None)]);
    let index = embed_code_search_index(index, vec![vec![10], vec![20, 21]]).unwrap();
    assert_eq!(index.chunk(CodeChunkId(1)).unwrap().embedding, vec![10]);
    assert_eq!(index.chunk(CodeChunkId(2)).unwrap().embedding, vec![20, 21]);
    assert_eq!(index.chunk(CodeChunkId(2)).unwrap().text, "two");
    let error = embed_code_search_index(index, vec![vec![1]]).unwrap_err();
    assert_eq!(
        error,
        "embedding provider returned 1 embeddings for 2 indexed chunks"
    );
}

#[test]
fn words_are_lowercase_runs_of_letters_digits_and_underscores() {
    assert_eq!(
        tokenize_for_search("fn Move_To(x2) -> ÄRGER; ΣΑΣ"),
        vec!["fn", "move_to", "x2", "ärger", "σασ"]
    );
    assert!(tokenize_for_search(" ->;").is_empty());
    // One character may become two.
    assert_eq!(tokenize_for_search("İ"), vec!["i\u{307}"]);
    let mut joined = tokenize_for_search("left part");
    joined.extend(tokenize_for_search("right part"));
    assert_eq!(tokenize_for_search("left part-right part"), joined);
}
