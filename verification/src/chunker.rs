//! The code chunker: a pre-order traversal of one file's syntax tree that
//! emits named, line-bounded chunks (function, method and class bodies) with
//! the enclosing class carried down as a read-only context value. Chunks
//! spanning fewer than two lines are dropped; nested chunks overlap their
//! enclosing chunk's span by design.
use vstd::prelude::*;
use crate::text::str_eq;
use crate::tree::{SyntaxNode, child_by_field, child_by_field_spec, parse_python, parse_typescript,
    parse_tsx, python_tree, typescript_tree, tsx_tree};

verus! {

/// What a chunk is: a free function, a method nested under a class, or a
/// class body.
#[derive(Clone, Copy, PartialEq, Eq, Structural, Debug)]
pub enum ChunkKind {
    Func,
    Method,
    Class,
}

/// The grammars the chunker knows.
#[derive(Clone, Copy, PartialEq, Eq, Structural, Debug)]
pub enum ChunkLang {
    Python,
    TypeScript,
    Tsx,
}

/// One emitted chunk: 1-based inclusive line span, the covered body text,
/// its kind, its name where the node carries one, and the enclosing class
/// name where the chunk sits inside a class.
pub struct CodeChunk {
    pub start_line: usize,
    pub end_line: usize,
    pub text: String,
    pub kind: ChunkKind,
    pub name: Option<String>,
    pub parent_class: Option<String>,
}

/// The mathematical image of one chunk.
pub ghost struct ChunkModel {
    pub start_line: int,
    pub end_line: int,
    pub text: Seq<char>,
    pub kind: ChunkKind,
    pub name: Option<Seq<char>>,
    pub parent_class: Option<Seq<char>>,
}

impl View for CodeChunk {
    type V = ChunkModel;

    open spec fn view(&self) -> ChunkModel {
        ChunkModel {
            start_line: self.start_line as int,
            end_line: self.end_line as int,
            text: self.text@,
            kind: self.kind,
            name: match self.name {
                Some(s) => Some(s@),
                None => None,
            },
            parent_class: match self.parent_class {
                Some(s) => Some(s@),
                None => None,
            },
        }
    }
}

/// The chunk models of an emitted vector, in order.
pub open spec fn models_of(v: Vec<CodeChunk>) -> Seq<ChunkModel> {
    Seq::new(v@.len(), |i: int| v@[i]@)
}

/// The per-language kind table: how a node kind classifies, given whether
/// the node sits inside a class.
pub open spec fn classify(lang: ChunkLang, kind: Seq<char>, in_class: bool) -> Option<ChunkKind> {
    match lang {
        ChunkLang::Python => if kind == "function_definition"@ {
            if in_class {
                Some(ChunkKind::Method)
            } else {
                Some(ChunkKind::Func)
            }
        } else if kind == "class_definition"@ {
            Some(ChunkKind::Class)
        } else {
            None
        },
        ChunkLang::TypeScript | ChunkLang::Tsx => if kind == "function_declaration"@ {
            Some(ChunkKind::Func)
        } else if kind == "method_definition"@ {
            Some(ChunkKind::Method)
        } else if kind == "class_declaration"@ {
            Some(ChunkKind::Class)
        } else {
            None
        },
    }
}

/// The node a chunk's name is read from: the `name` field, else the `key`
/// field.
pub open spec fn name_node_spec(n: SyntaxNode) -> Option<SyntaxNode> {
    match child_by_field_spec(n.children@, "name"@) {
        Some(c) => Some(c),
        None => child_by_field_spec(n.children@, "key"@),
    }
}

/// The extracted name text, where there is one.
pub open spec fn name_text(n: SyntaxNode) -> Option<Seq<char>> {
    match name_node_spec(n) {
        Some(c) => Some(c.text@),
        None => None,
    }
}

/// The chunk a single node emits: classified nodes spanning at least two
/// lines yield one chunk; everything else yields none. The guard on
/// `usize::MAX` keeps the 1-based line numbers representable.
pub open spec fn chunk_of(n: SyntaxNode, lang: ChunkLang, parent: Option<Seq<char>>) -> Seq<
    ChunkModel,
> {
    match classify(lang, n.kind@, parent is Some) {
        Some(k) => if n.start_row < n.end_row && n.end_row + 1 <= usize::MAX {
            seq![
                ChunkModel {
                    start_line: n.start_row + 1,
                    end_line: n.end_row + 1,
                    text: n.text@,
                    kind: k,
                    name: name_text(n),
                    parent_class: parent,
                },
            ]
        } else {
            Seq::<ChunkModel>::empty()
        },
        None => Seq::<ChunkModel>::empty(),
    }
}

/// The enclosing-class context the children inherit: updated only when
/// entering a named class-like node, inherited unchanged otherwise.
pub open spec fn next_parent(n: SyntaxNode, lang: ChunkLang, parent: Option<Seq<char>>) -> Option<
    Seq<char>,
> {
    if classify(lang, n.kind@, parent is Some) == Some(ChunkKind::Class) {
        match name_text(n) {
            Some(nm) => Some(nm),
            None => parent,
        }
    } else {
        parent
    }
}

/// All chunks of the subtree at `n`, in document (pre-order) order.
pub open spec fn chunks_spec(n: SyntaxNode, lang: ChunkLang, parent: Option<Seq<char>>) -> Seq<
    ChunkModel,
>
    decreases n,
{
    chunk_of(n, lang, parent) + chunks_seq(n.children@, lang, next_parent(n, lang, parent))
}

/// All chunks under a sequence of sibling subtrees.
pub open spec fn chunks_seq(cs: Seq<SyntaxNode>, lang: ChunkLang, parent: Option<Seq<char>>) -> Seq<
    ChunkModel,
>
    decreases cs,
{
    if cs.len() == 0 {
        Seq::<ChunkModel>::empty()
    } else {
        chunks_seq(cs.drop_last(), lang, parent) + chunks_spec(cs.last(), lang, parent)
    }
}

/// A well-formed chunk: 1-based lines, spanning at least two lines.
pub open spec fn wf_chunk(m: ChunkModel) -> bool {
    1 <= m.start_line && m.start_line < m.end_line
}

/// Every chunk the traversal emits is well-formed: its line numbers are
/// 1-based and its span covers at least two lines.
pub proof fn lemma_chunks_wf(n: SyntaxNode, lang: ChunkLang, parent: Option<Seq<char>>)
    ensures
        forall|i: int|
            0 <= i < chunks_spec(n, lang, parent).len() ==> wf_chunk(
                #[trigger] chunks_spec(n, lang, parent)[i],
            ),
    decreases n,
{
    lemma_chunks_seq_wf(n.children@, lang, next_parent(n, lang, parent));
    let left = chunk_of(n, lang, parent);
    let right = chunks_seq(n.children@, lang, next_parent(n, lang, parent));
    assert forall|i: int|
        0 <= i < chunks_spec(n, lang, parent).len() implies wf_chunk(
        #[trigger] chunks_spec(n, lang, parent)[i],
    ) by {
        if i < left.len() {
            assert(chunks_spec(n, lang, parent)[i] == left[i]);
        } else {
            assert(chunks_spec(n, lang, parent)[i] == right[i - left.len()]);
        }
    }
}

/// The sibling-sequence form of `lemma_chunks_wf`.
pub proof fn lemma_chunks_seq_wf(cs: Seq<SyntaxNode>, lang: ChunkLang, parent: Option<Seq<char>>)
    ensures
        forall|i: int|
            0 <= i < chunks_seq(cs, lang, parent).len() ==> wf_chunk(
                #[trigger] chunks_seq(cs, lang, parent)[i],
            ),
    decreases cs,
{
    if cs.len() > 0 {
        lemma_chunks_seq_wf(cs.drop_last(), lang, parent);
        lemma_chunks_wf(cs.last(), lang, parent);
        let left = chunks_seq(cs.drop_last(), lang, parent);
        let right = chunks_spec(cs.last(), lang, parent);
        assert forall|i: int|
            0 <= i < chunks_seq(cs, lang, parent).len() implies wf_chunk(
            #[trigger] chunks_seq(cs, lang, parent)[i],
        ) by {
            if i < left.len() {
                assert(chunks_seq(cs, lang, parent)[i] == left[i]);
            } else {
                assert(chunks_seq(cs, lang, parent)[i] == right[i - left.len()]);
            }
        }
    }
}

fn classify_exec(lang: ChunkLang, kind: &str, in_class: bool) -> (r: Option<ChunkKind>)
    ensures
        r == classify(lang, kind@, in_class),
{
    match lang {
        ChunkLang::Python => {
            if str_eq(kind, "function_definition") {
                if in_class {
                    Some(ChunkKind::Method)
                } else {
                    Some(ChunkKind::Func)
                }
            } else if str_eq(kind, "class_definition") {
                Some(ChunkKind::Class)
            } else {
                None
            }
        },
        ChunkLang::TypeScript | ChunkLang::Tsx => {
            if str_eq(kind, "function_declaration") {
                Some(ChunkKind::Func)
            } else if str_eq(kind, "method_definition") {
                Some(ChunkKind::Method)
            } else if str_eq(kind, "class_declaration") {
                Some(ChunkKind::Class)
            } else {
                None
            }
        },
    }
}

fn name_node<'a>(node: &'a SyntaxNode) -> (r: Option<&'a SyntaxNode>)
    ensures
        match r {
            Some(c) => name_node_spec(*node) == Some(*c),
            None => name_node_spec(*node) is None,
        },
{
    match child_by_field(node, "name") {
        Some(c) => Some(c),
        None => child_by_field(node, "key"),
    }
}

/// The view of an optional class name.
pub open spec fn opt_name_view(p: Option<String>) -> Option<Seq<char>> {
    match p {
        Some(s) => Some(s@),
        None => None,
    }
}

fn clone_opt_name(p: &Option<String>) -> (r: Option<String>)
    ensures
        opt_name_view(r) == opt_name_view(*p),
{
    match p {
        Some(s) => Some(s.clone()),
        None => None,
    }
}

/// Walk the subtree at `node`, appending every chunk it emits in document
/// order; `parent_class` is the enclosing class name carried down read-only.
pub fn walk_and_chunk(
    node: &SyntaxNode,
    lang: ChunkLang,
    parent_class: &Option<String>,
    chunks: &mut Vec<CodeChunk>,
)
    ensures
        models_of(*final(chunks)) == models_of(*old(chunks)) + chunks_spec(
            *node,
            lang,
            opt_name_view(*parent_class),
        ),
    decreases *node,
{
    let ghost start = models_of(*chunks);
    let ghost pv = opt_name_view(*parent_class);
    let kind_opt = classify_exec(lang, node.kind.as_str(), parent_class.is_some());
    let named = name_node(node);
    if let Some(k) = kind_opt {
        if node.start_row < node.end_row && node.end_row < usize::MAX {
            let chunk = CodeChunk {
                start_line: node.start_row + 1,
                end_line: node.end_row + 1,
                text: node.text.clone(),
                kind: k,
                name: match named {
                    Some(c) => Some(c.text.clone()),
                    None => None,
                },
                parent_class: clone_opt_name(parent_class),
            };
            proof {
                assert(chunk@ == chunk_of(*node, lang, pv)[0]);
            }
            chunks.push(chunk);
        }
    }
    proof {
        assert(models_of(*chunks) =~= start + chunk_of(*node, lang, pv));
    }
    let down_class: Option<String> = match (kind_opt, named) {
        (Some(ChunkKind::Class), Some(c)) => Some(c.text.clone()),
        _ => clone_opt_name(parent_class),
    };
    let ghost mid = models_of(*chunks);
    let ghost np = opt_name_view(down_class);
    proof {
        assert(np == next_parent(*node, lang, pv));
    }
    let mut i: usize = 0;
    proof {
        assert(node.children@.take(0) =~= Seq::<SyntaxNode>::empty());
        assert(mid + chunks_seq(node.children@.take(0), lang, np) =~= mid);
    }
    while i < node.children.len()
        invariant
            i <= node.children.len(),
            np == opt_name_view(down_class),
            models_of(*chunks) == mid + chunks_seq(node.children@.take(i as int), lang, np),
        decreases node.children.len() - i,
    {
        let ghost prev = models_of(*chunks);
        walk_and_chunk(&node.children[i], lang, &down_class, chunks);
        proof {
            assert(models_of(*chunks) == prev + chunks_spec(node.children@[i as int], lang, np));
            let t1 = node.children@.take(i + 1);
            assert(t1.drop_last() =~= node.children@.take(i as int));
            assert(t1.last() == node.children@[i as int]);
            assert(chunks_seq(t1, lang, np) == chunks_seq(node.children@.take(i as int), lang, np)
                + chunks_spec(node.children@[i as int], lang, np));
            assert(models_of(*chunks) =~= mid + chunks_seq(t1, lang, np));
        }
        i += 1;
    }
    proof {
        assert(node.children@.take(node.children@.len() as int) =~= node.children@);
        assert(models_of(*chunks) =~= start + chunks_spec(*node, lang, pv));
    }
}

/// The language tag table: `python`/`py`, `typescript`/`ts`, `tsx`; unknown
/// tags carry no structural information.
pub open spec fn lang_of(tag: Seq<char>) -> Option<ChunkLang> {
    if tag == "python"@ || tag == "py"@ {
        Some(ChunkLang::Python)
    } else if tag == "typescript"@ || tag == "ts"@ {
        Some(ChunkLang::TypeScript)
    } else if tag == "tsx"@ {
        Some(ChunkLang::Tsx)
    } else {
        None
    }
}

/// The tree the chosen grammar assigns to the content.
pub open spec fn tree_of(lang: ChunkLang, content: Seq<char>) -> Option<SyntaxNode> {
    match lang {
        ChunkLang::Python => python_tree(content),
        ChunkLang::TypeScript => typescript_tree(content),
        ChunkLang::Tsx => tsx_tree(content),
    }
}

/// What `chunk_code` returns: the chunks of the parsed tree, or nothing for
/// an unknown tag or unparsable content.
pub open spec fn chunks_of_source(tag: Seq<char>, content: Seq<char>) -> Seq<ChunkModel> {
    match lang_of(tag) {
        Some(l) => match tree_of(l, content) {
            Some(t) => chunks_spec(t, l, None),
            None => Seq::<ChunkModel>::empty(),
        },
        None => Seq::<ChunkModel>::empty(),
    }
}

/// Segment source text into named, line-bounded chunks in document order.
/// Every emitted chunk has 1-based lines and spans at least two lines; an
/// unsupported language tag yields the empty list rather than an error.
pub fn chunk_code(content: &str, language: &str) -> (r: Vec<CodeChunk>)
    ensures
        models_of(r) == chunks_of_source(language@, content@),
        forall|i: int| 0 <= i < r@.len() ==> wf_chunk(#[trigger] r@[i]@),
{
    let lang_opt = if str_eq(language, "python") || str_eq(language, "py") {
        Some(ChunkLang::Python)
    } else if str_eq(language, "typescript") || str_eq(language, "ts") {
        Some(ChunkLang::TypeScript)
    } else if str_eq(language, "tsx") {
        Some(ChunkLang::Tsx)
    } else {
        None
    };
    let mut chunks: Vec<CodeChunk> = Vec::new();
    proof {
        assert(models_of(chunks) =~= Seq::<ChunkModel>::empty());
    }
    let tree = match lang_opt {
        Some(ChunkLang::Python) => parse_python(content),
        Some(ChunkLang::TypeScript) => parse_typescript(content),
        Some(ChunkLang::Tsx) => parse_tsx(content),
        None => None,
    };
    if let Some(l) = lang_opt {
        match tree {
            Some(t) => {
                let root_class: Option<String> = None;
                walk_and_chunk(&t, l, &root_class, &mut chunks);
                proof {
                    assert(models_of(chunks) =~= chunks_spec(t, l, None));
                    lemma_chunks_wf(t, l, None);
                    assert forall|i: int| 0 <= i < chunks@.len() implies wf_chunk(
                        #[trigger] chunks@[i]@,
                    ) by {
                        assert(chunks@[i]@ == models_of(chunks)[i]);
                        assert(models_of(chunks)[i] == chunks_spec(t, l, None)[i]);
                        assert(wf_chunk(chunks_spec(t, l, None)[i]));
                    }
                }
            },
            None => {},
        }
    }
    chunks
}

} // verus!
