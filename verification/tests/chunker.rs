use context_engine::chunker::{chunk_code, ChunkKind};

#[test]
fn three_line_function_beside_one_liner_yields_one_chunk() {
    let src = "def f():\n    a = 1\n    return a\ndef g(): pass\n";
    let chunks = chunk_code(src, "python");
    assert_eq!(chunks.len(), 1);
    assert_eq!(chunks[0].name.as_deref(), Some("f"));
    assert_eq!(chunks[0].kind, ChunkKind::Func);
    assert_eq!(chunks[0].start_line, 1);
    assert_eq!(chunks[0].end_line, 3);
}

#[test]
fn one_line_function_emits_nothing() {
    let chunks = chunk_code("def f(): pass\n", "python");
    assert_eq!(chunks.len(), 0);
}

#[test]
fn method_carries_enclosing_class_name() {
    let src = "class C:\n    def m(self):\n        return 1\n";
    let chunks = chunk_code(src, "python");
    assert_eq!(chunks.len(), 2);
    assert_eq!(chunks[0].kind, ChunkKind::Class);
    assert_eq!(chunks[0].name.as_deref(), Some("C"));
    assert_eq!(chunks[0].parent_class, None);
    assert_eq!(chunks[1].kind, ChunkKind::Method);
    assert_eq!(chunks[1].name.as_deref(), Some("m"));
    assert_eq!(chunks[1].parent_class.as_deref(), Some("C"));
}

#[test]
fn nested_chunks_overlap_enclosing_span() {
    let src = "class C:\n    def m(self):\n        return 1\n";
    let chunks = chunk_code(src, "python");
    assert!(chunks[0].start_line <= chunks[1].start_line);
    assert!(chunks[1].end_line <= chunks[0].end_line);
}

#[test]
fn all_chunks_are_well_formed() {
    let src = "class C:\n    def m(self):\n        return 1\n\ndef f():\n    pass\n";
    for c in chunk_code(src, "python") {
        assert!(c.start_line >= 1);
        assert!(c.end_line >= c.start_line + 1);
    }
}

#[test]
fn typescript_function_declaration_chunks() {
    let src = "function foo() {\n  return 1;\n}\n";
    let chunks = chunk_code(src, "ts");
    assert_eq!(chunks.len(), 1);
    assert_eq!(chunks[0].kind, ChunkKind::Func);
    assert_eq!(chunks[0].name.as_deref(), Some("foo"));
}

#[test]
fn chunk_text_covers_the_node() {
    let src = "def f():\n    a = 1\n    return a\n";
    let chunks = chunk_code(src, "py");
    assert_eq!(chunks.len(), 1);
    assert!(chunks[0].text.starts_with("def f():"));
    assert!(chunks[0].text.contains("return a"));
}

#[test]
fn tsx_class_and_method_chunks() {
    let src = "class A {\n  render() {\n    return 1;\n  }\n}\n";
    let chunks = chunk_code(src, "tsx");
    assert_eq!(chunks.len(), 2);
    assert_eq!(chunks[0].kind, ChunkKind::Class);
    assert_eq!(chunks[0].name.as_deref(), Some("A"));
    assert_eq!(chunks[1].kind, ChunkKind::Method);
    assert_eq!(chunks[1].name.as_deref(), Some("render"));
    assert_eq!(chunks[1].parent_class.as_deref(), Some("A"));
}

#[test]
fn unknown_language_tag_yields_empty_list() {
    assert_eq!(chunk_code("def f():\n    pass\n", "go").len(), 0);
}
