//! The syntax tree provider: a per-language parser produces a tree of plain
//! values that the import extractor and the code chunker traverse. Parsing
//! itself is delegated to the tree-sitter crates; everything downstream of the
//! returned tree is verified.
use vstd::prelude::*;
use crate::text::str_eq;

verus! {

/// One node of a concrete syntax tree, reduced to the plain values the
/// traversals read: the grammar's kind label, the source text the node
/// covers, its 0-based row span, the field name it carries under its parent,
/// and its ordered children.
pub struct SyntaxNode {
    pub kind: String,
    pub text: String,
    pub start_row: usize,
    pub end_row: usize,
    pub field: Option<String>,
    pub children: Vec<SyntaxNode>,
}

#[verifier::external_type_specification]
#[verifier::external_body]
pub struct ExTsNode<'tree>(tree_sitter::Node<'tree>);

/// Relies on tree-sitter's `Node` accessors (`kind`, `utf8_text`,
/// `start_position`, `end_position`, `child`, `field_name_for_child`): copies
/// one parsed node and its children into the library's tree of plain values.
#[verifier::external_body]
fn convert_node<'t>(node: tree_sitter::Node<'t>, source: &str, field: Option<String>) -> SyntaxNode {
    let mut children = Vec::new();
    for i in 0..node.child_count() {
        if let Some(c) = node.child(i) {
            children.push(convert_node(c, source, node.field_name_for_child(i).map(|s| s.to_string())));
        }
    }
    SyntaxNode {
        kind: node.kind().to_string(),
        text: node.utf8_text(source.as_bytes()).unwrap_or("").to_string(),
        start_row: node.start_position().row,
        end_row: node.end_position().row,
        field, children,
    }
}

/// The tree that the Python grammar assigns to `text`, `None` where parsing
/// fails; determined by the text alone.
pub uninterp spec fn python_tree(text: Seq<char>) -> Option<SyntaxNode>;

/// The tree that the TypeScript grammar assigns to `text`, `None` where
/// parsing fails; determined by the text alone.
pub uninterp spec fn typescript_tree(text: Seq<char>) -> Option<SyntaxNode>;

/// The tree that the TSX grammar assigns to `text`, `None` where parsing
/// fails; determined by the text alone.
pub uninterp spec fn tsx_tree(text: Seq<char>) -> Option<SyntaxNode>;

/// Relies on `tree_sitter::Parser::parse` with the `tree_sitter_python`
/// grammar: deterministic in the source text.
#[verifier::external_body]
pub fn parse_python(text: &str) -> (r: Option<SyntaxNode>)
    ensures
        r == python_tree(text@),
{
    let mut parser = tree_sitter::Parser::new();
    if parser.set_language(&tree_sitter_python::LANGUAGE.into()).is_err() {
        return None;
    }
    let tree = parser.parse(text, None)?;
    Some(convert_node(tree.root_node(), text, None))
}

/// Relies on `tree_sitter::Parser::parse` with the TypeScript grammar of
/// `tree_sitter_typescript`: deterministic in the source text.
#[verifier::external_body]
pub fn parse_typescript(text: &str) -> (r: Option<SyntaxNode>)
    ensures
        r == typescript_tree(text@),
{
    let mut parser = tree_sitter::Parser::new();
    if parser.set_language(&tree_sitter_typescript::LANGUAGE_TYPESCRIPT.into()).is_err() {
        return None;
    }
    let tree = parser.parse(text, None)?;
    Some(convert_node(tree.root_node(), text, None))
}

/// Relies on `tree_sitter::Parser::parse` with the TSX grammar of
/// `tree_sitter_typescript`: deterministic in the source text.
#[verifier::external_body]
pub fn parse_tsx(text: &str) -> (r: Option<SyntaxNode>)
    ensures
        r == tsx_tree(text@),
{
    let mut parser = tree_sitter::Parser::new();
    if parser.set_language(&tree_sitter_typescript::LANGUAGE_TSX.into()).is_err() {
        return None;
    }
    let tree = parser.parse(text, None)?;
    Some(convert_node(tree.root_node(), text, None))
}

/// The first child carrying field name `name`, the tree's named-child lookup.
pub open spec fn child_by_field_spec(children: Seq<SyntaxNode>, name: Seq<char>) -> Option<
    SyntaxNode,
>
    decreases children.len(),
{
    if children.len() == 0 {
        None
    } else {
        match children[0].field {
            Some(f) => if f@ == name {
                Some(children[0])
            } else {
                child_by_field_spec(children.drop_first(), name)
            },
            None => child_by_field_spec(children.drop_first(), name),
        }
    }
}

/// Look up the first child with the given field name.
pub fn child_by_field<'a>(node: &'a SyntaxNode, name: &str) -> (r: Option<&'a SyntaxNode>)
    ensures
        match r {
            Some(c) => child_by_field_spec(node.children@, name@) == Some(*c),
            None => child_by_field_spec(node.children@, name@) is None,
        },
{
    let mut i: usize = 0;
    proof {
        assert(node.children@.skip(0) =~= node.children@);
    }
    while i < node.children.len()
        invariant
            i <= node.children.len(),
            child_by_field_spec(node.children@, name@) == child_by_field_spec(
                node.children@.skip(i as int),
                name@,
            ),
        decreases node.children.len() - i,
    {
        proof {
            let rest = node.children@.skip(i as int);
            assert(rest[0] == node.children@[i as int]);
            assert(rest.drop_first() =~= node.children@.skip(i + 1));
        }
        let child = &node.children[i];
        match &child.field {
            Some(f) => {
                if str_eq(f.as_str(), name) {
                    return Some(child);
                }
            },
            None => {},
        }
        i += 1;
    }
    proof {
        assert(node.children@.skip(node.children@.len() as int) =~= Seq::<SyntaxNode>::empty());
    }
    None
}

} // verus!
