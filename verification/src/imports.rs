//! The import extractor: a full pre-order traversal of one file's syntax
//! tree, collecting module specifiers by a small per-grammar pattern table.
//! Order is source appearance order and duplicates are preserved.
use vstd::prelude::*;
use crate::text::{str_eq, ends_with, strip_quotes, is_suffix_of, unquoted};
use crate::tree::{SyntaxNode, child_by_field, child_by_field_spec, parse_python, parse_typescript,
    python_tree, typescript_tree};

verus! {

/// The specifier contributed by one child of a Python `import` statement:
/// a dotted name as written, or the qualified name of an aliased import
/// (never the alias).
pub open spec fn py_statement_entry(c: SyntaxNode) -> Seq<Seq<char>> {
    if c.kind@ == "dotted_name"@ {
        seq![c.text@]
    } else if c.kind@ == "aliased_import"@ {
        match child_by_field_spec(c.children@, "name"@) {
            Some(nm) => seq![nm.text@],
            None => Seq::<Seq<char>>::empty(),
        }
    } else {
        Seq::<Seq<char>>::empty()
    }
}

/// All specifiers contributed by the children of one `import` statement.
pub open spec fn py_statement_entries(cs: Seq<SyntaxNode>) -> Seq<Seq<char>>
    decreases cs.len(),
{
    if cs.len() == 0 {
        Seq::<Seq<char>>::empty()
    } else {
        py_statement_entries(cs.drop_last()) + py_statement_entry(cs.last())
    }
}

/// The specifiers a single Python node contributes, before its children are
/// visited: `import a.b` yields each dotted name, `from m import x` yields
/// the module name.
pub open spec fn py_own_entries(n: SyntaxNode) -> Seq<Seq<char>> {
    if n.kind@ == "import_statement"@ {
        match child_by_field_spec(n.children@, "name"@) {
            Some(_) => py_statement_entries(n.children@),
            None => Seq::<Seq<char>>::empty(),
        }
    } else if n.kind@ == "import_from_statement"@ {
        match child_by_field_spec(n.children@, "module_name"@) {
            Some(m) => seq![m.text@],
            None => Seq::<Seq<char>>::empty(),
        }
    } else {
        Seq::<Seq<char>>::empty()
    }
}

/// All Python import specifiers in the subtree at `n`, in pre-order.
pub open spec fn py_imports(n: SyntaxNode) -> Seq<Seq<char>>
    decreases n,
{
    py_own_entries(n) + py_imports_seq(n.children@)
}

/// All Python import specifiers under a sequence of sibling subtrees.
pub open spec fn py_imports_seq(cs: Seq<SyntaxNode>) -> Seq<Seq<char>>
    decreases cs,
{
    if cs.len() == 0 {
        Seq::<Seq<char>>::empty()
    } else {
        py_imports_seq(cs.drop_last()) + py_imports(cs.last())
    }
}

/// The specifier contributed by one argument of a `require(...)` call: a
/// string literal with its quotes stripped.
pub open spec fn ts_string_arg(c: SyntaxNode) -> Seq<Seq<char>> {
    if c.kind@ == "string"@ {
        seq![unquoted(c.text@)]
    } else {
        Seq::<Seq<char>>::empty()
    }
}

/// All string-literal arguments of one `require(...)` call.
pub open spec fn ts_string_args(cs: Seq<SyntaxNode>) -> Seq<Seq<char>>
    decreases cs.len(),
{
    if cs.len() == 0 {
        Seq::<Seq<char>>::empty()
    } else {
        ts_string_args(cs.drop_last()) + ts_string_arg(cs.last())
    }
}

/// The specifiers a single TypeScript node contributes, before its children
/// are visited: the unquoted `source` of an `import` statement, or the
/// string arguments of a call whose callee reads `require`.
pub open spec fn ts_own_entries(n: SyntaxNode) -> Seq<Seq<char>> {
    if n.kind@ == "import_statement"@ {
        match child_by_field_spec(n.children@, "source"@) {
            Some(src) => seq![unquoted(src.text@)],
            None => Seq::<Seq<char>>::empty(),
        }
    } else if n.kind@ == "call_expression"@ {
        match child_by_field_spec(n.children@, "function"@) {
            Some(f) => if f.text@ == "require"@ {
                match child_by_field_spec(n.children@, "arguments"@) {
                    Some(args) => ts_string_args(args.children@),
                    None => Seq::<Seq<char>>::empty(),
                }
            } else {
                Seq::<Seq<char>>::empty()
            },
            None => Seq::<Seq<char>>::empty(),
        }
    } else {
        Seq::<Seq<char>>::empty()
    }
}

/// All TypeScript/JavaScript import specifiers in the subtree at `n`.
pub open spec fn ts_imports(n: SyntaxNode) -> Seq<Seq<char>>
    decreases n,
{
    ts_own_entries(n) + ts_imports_seq(n.children@)
}

/// All TypeScript/JavaScript import specifiers under sibling subtrees.
pub open spec fn ts_imports_seq(cs: Seq<SyntaxNode>) -> Seq<Seq<char>>
    decreases cs,
{
    if cs.len() == 0 {
        Seq::<Seq<char>>::empty()
    } else {
        ts_imports_seq(cs.drop_last()) + ts_imports(cs.last())
    }
}

fn push_str(v: &mut Vec<String>, s: String)
    ensures
        final(v).deep_view() == old(v).deep_view() + seq![s@],
{
    let ghost prev = v.deep_view();
    let ghost sv = s@;
    v.push(s);
    proof {
        assert(v.deep_view() =~= prev + seq![sv]);
    }
}

/// Collect every Python import specifier in the subtree at `node`, appending
/// in pre-order.
pub fn collect_python_imports(node: &SyntaxNode, imports: &mut Vec<String>)
    ensures
        final(imports).deep_view() == old(imports).deep_view() + py_imports(*node),
    decreases *node,
{
    let ghost start = imports.deep_view();
    if str_eq(node.kind.as_str(), "import_statement") {
        if child_by_field(node, "name").is_some() {
            let mut i: usize = 0;
            proof {
                assert(node.children@.take(0) =~= Seq::<SyntaxNode>::empty());
                assert(start + py_statement_entries(node.children@.take(0)) =~= start);
            }
            while i < node.children.len()
                invariant
                    i <= node.children.len(),
                    imports.deep_view() == start + py_statement_entries(
                        node.children@.take(i as int),
                    ),
                decreases node.children.len() - i,
            {
                proof {
                    let t1 = node.children@.take(i + 1);
                    assert(t1.drop_last() =~= node.children@.take(i as int));
                    assert(t1.last() == node.children@[i as int]);
                }
                let child = &node.children[i];
                if str_eq(child.kind.as_str(), "dotted_name") {
                    push_str(imports, child.text.clone());
                } else if str_eq(child.kind.as_str(), "aliased_import") {
                    match child_by_field(child, "name") {
                        Some(nm) => {
                            push_str(imports, nm.text.clone());
                        },
                        None => {},
                    }
                }
                proof {
                    assert(imports.deep_view() =~= start + py_statement_entries(
                        node.children@.take(i + 1),
                    ));
                }
                i += 1;
            }
            proof {
                assert(node.children@.take(node.children@.len() as int) =~= node.children@);
            }
        }
    } else if str_eq(node.kind.as_str(), "import_from_statement") {
        match child_by_field(node, "module_name") {
            Some(m) => {
                push_str(imports, m.text.clone());
            },
            None => {},
        }
    }
    proof {
        assert(imports.deep_view() =~= start + py_own_entries(*node));
    }
    let ghost mid = imports.deep_view();
    let mut i: usize = 0;
    proof {
        assert(node.children@.take(0) =~= Seq::<SyntaxNode>::empty());
        assert(mid + py_imports_seq(node.children@.take(0)) =~= mid);
    }
    while i < node.children.len()
        invariant
            i <= node.children.len(),
            imports.deep_view() == mid + py_imports_seq(node.children@.take(i as int)),
        decreases node.children.len() - i,
    {
        proof {
            let t1 = node.children@.take(i + 1);
            assert(t1.drop_last() =~= node.children@.take(i as int));
            assert(t1.last() == node.children@[i as int]);
        }
        collect_python_imports(&node.children[i], imports);
        proof {
            assert(imports.deep_view() =~= mid + py_imports_seq(node.children@.take(i + 1)));
        }
        i += 1;
    }
    proof {
        assert(node.children@.take(node.children@.len() as int) =~= node.children@);
        assert(imports.deep_view() =~= start + py_imports(*node));
    }
}

/// Collect every TypeScript/JavaScript import specifier in the subtree at
/// `node`, appending in pre-order.
pub fn collect_ts_imports(node: &SyntaxNode, imports: &mut Vec<String>)
    ensures
        final(imports).deep_view() == old(imports).deep_view() + ts_imports(*node),
    decreases *node,
{
    let ghost start = imports.deep_view();
    if str_eq(node.kind.as_str(), "import_statement") {
        match child_by_field(node, "source") {
            Some(src) => {
                push_str(imports, strip_quotes(src.text.as_str()));
            },
            None => {},
        }
    } else if str_eq(node.kind.as_str(), "call_expression") {
        match child_by_field(node, "function") {
            Some(f) => {
                if str_eq(f.text.as_str(), "require") {
                    match child_by_field(node, "arguments") {
                        Some(args) => {
                            let mut i: usize = 0;
                            proof {
                                assert(args.children@.take(0) =~= Seq::<SyntaxNode>::empty());
                                assert(start + ts_string_args(args.children@.take(0)) =~= start);
                            }
                            while i < args.children.len()
                                invariant
                                    i <= args.children.len(),
                                    imports.deep_view() == start + ts_string_args(
                                        args.children@.take(i as int),
                                    ),
                                decreases args.children.len() - i,
                            {
                                proof {
                                    let t1 = args.children@.take(i + 1);
                                    assert(t1.drop_last() =~= args.children@.take(i as int));
                                    assert(t1.last() == args.children@[i as int]);
                                }
                                let child = &args.children[i];
                                if str_eq(child.kind.as_str(), "string") {
                                    push_str(imports, strip_quotes(child.text.as_str()));
                                }
                                proof {
                                    assert(imports.deep_view() =~= start + ts_string_args(
                                        args.children@.take(i + 1),
                                    ));
                                }
                                i += 1;
                            }
                            proof {
                                assert(args.children@.take(args.children@.len() as int)
                                    =~= args.children@);
                            }
                        },
                        None => {},
                    }
                }
            },
            None => {},
        }
    }
    proof {
        assert(imports.deep_view() =~= start + ts_own_entries(*node));
    }
    let ghost mid = imports.deep_view();
    let mut i: usize = 0;
    proof {
        assert(node.children@.take(0) =~= Seq::<SyntaxNode>::empty());
        assert(mid + ts_imports_seq(node.children@.take(0)) =~= mid);
    }
    while i < node.children.len()
        invariant
            i <= node.children.len(),
            imports.deep_view() == mid + ts_imports_seq(node.children@.take(i as int)),
        decreases node.children.len() - i,
    {
        proof {
            let t1 = node.children@.take(i + 1);
            assert(t1.drop_last() =~= node.children@.take(i as int));
            assert(t1.last() == node.children@[i as int]);
        }
        collect_ts_imports(&node.children[i], imports);
        proof {
            assert(imports.deep_view() =~= mid + ts_imports_seq(node.children@.take(i + 1)));
        }
        i += 1;
    }
    proof {
        assert(node.children@.take(node.children@.len() as int) =~= node.children@);
        assert(imports.deep_view() =~= start + ts_imports(*node));
    }
}

/// The import specifiers a file yields: selected by extension, Python files
/// through the Python grammar, TypeScript/TSX/JavaScript/JSX files through
/// the TypeScript grammar; anything else, and any file the grammar cannot
/// parse, yields none.
pub open spec fn imports_spec(path: Seq<char>, content: Seq<char>) -> Seq<Seq<char>> {
    if is_suffix_of(".py"@, path) {
        match python_tree(content) {
            Some(t) => py_imports(t),
            None => Seq::<Seq<char>>::empty(),
        }
    } else if is_suffix_of(".ts"@, path) || is_suffix_of(".tsx"@, path) || is_suffix_of(
        ".js"@,
        path,
    ) || is_suffix_of(".jsx"@, path) {
        match typescript_tree(content) {
            Some(t) => ts_imports(t),
            None => Seq::<Seq<char>>::empty(),
        }
    } else {
        Seq::<Seq<char>>::empty()
    }
}

/// Extract the raw imported-module specifiers of one file, in source order,
/// duplicates preserved. The grammar is chosen by the file's extension;
/// unsupported extensions and unparsable content yield the empty list.
pub fn get_imports(file_path: &str, content: &str) -> (r: Vec<String>)
    ensures
        r.deep_view() == imports_spec(file_path@, content@),
{
    let mut imports: Vec<String> = Vec::new();
    proof {
        assert(imports.deep_view() =~= Seq::<Seq<char>>::empty());
    }
    if ends_with(file_path, ".py") {
        match parse_python(content) {
            Some(t) => {
                collect_python_imports(&t, &mut imports);
                proof {
                    assert(imports.deep_view() =~= py_imports(t));
                }
            },
            None => {},
        }
    } else if ends_with(file_path, ".ts") || ends_with(file_path, ".tsx") || ends_with(
        file_path,
        ".js",
    ) || ends_with(file_path, ".jsx") {
        match parse_typescript(content) {
            Some(t) => {
                collect_ts_imports(&t, &mut imports);
                proof {
                    assert(imports.deep_view() =~= ts_imports(t));
                }
            },
            None => {},
        }
    }
    imports
}

} // verus!
