//! The transformer: every call becomes a call holding an identifier wrapper
//! and an argument-list wrapper, and every literal a call wrapping it.
use vstd::prelude::*;
use vstd::string::StringExecFns;

use crate::parser::{lemma_call_view, lemma_program_view, lemma_trees_push, trees, Node, Tree};

verus! {

/// Why the transformer stopped.
#[derive(Debug, Clone, Copy, PartialEq, Eq, Structural)]
pub enum TransformError {
    /// The root is not a program.
    NotAProgram,
    /// A program node stands below the root.
    NestedProgram,
}

/// The tag of the node that holds a call's name.
pub open spec fn identifier_tag() -> Seq<char> {
    "Identifier"@
}

/// The tag of the node that holds a call's arguments.
pub open spec fn arguments_tag() -> Seq<char> {
    "Arguments"@
}

/// The tag of the node that wraps a number literal.
pub open spec fn number_tag() -> Seq<char> {
    "NumberLiteral"@
}

/// The tag of the node that wraps a string literal.
pub open spec fn string_tag() -> Seq<char> {
    "StringLiteral"@
}

/// The tree holds no program node, at its root or below.
pub open spec fn program_free(t: Tree) -> bool
    decreases t, 0nat,
{
    match t {
        Tree::Call(_, args) => program_free_from(args, 0),
        Tree::Program(_) => false,
        _ => true,
    }
}

/// The trees of `s` from index `i` on are free of program nodes.
pub open spec fn program_free_from(s: Seq<Tree>, i: nat) -> bool
    decreases s, s.len() - i,
{
    if i >= s.len() {
        true
    } else {
        program_free(s[i as int]) && program_free_from(s, i + 1)
    }
}

pub proof fn lemma_program_free_from(s: Seq<Tree>, i: nat)
    requires
        i <= s.len(),
    ensures
        program_free_from(s, i) <==> forall|j: int| i <= j < s.len() ==> #[trigger] program_free(
            s[j],
        ),
    decreases s.len() - i,
{
    if i < s.len() {
        lemma_program_free_from(s, i + 1);
        if forall|j: int| i <= j < s.len() ==> #[trigger] program_free(s[j]) {
            assert(program_free(s[i as int]));
        }
    }
}

/// A call is free of program nodes exactly when its arguments are.
pub proof fn lemma_call_program_free(name: Seq<char>, args: Seq<Tree>)
    ensures
        program_free(Tree::Call(name, args)) <==> all_program_free(args),
{
    lemma_program_free_from(args, 0);
}

/// The rewritten form of a tree.
pub open spec fn wrap(t: Tree) -> Tree
    decreases t,
{
    match t {
        Tree::Call(name, args) => Tree::Call(
            name,
            seq![
                Tree::Call(identifier_tag(), seq![Tree::Str(name)]),
                Tree::Call(arguments_tag(), wrap_all(args)),
            ],
        ),
        Tree::Num(v) => Tree::Call(number_tag(), seq![Tree::Num(v)]),
        Tree::Str(s) => Tree::Call(string_tag(), seq![Tree::Str(s)]),
        Tree::Program(body) => Tree::Program(wrap_all(body)),
    }
}

/// The rewritten forms of a sequence of trees.
pub open spec fn wrap_all(s: Seq<Tree>) -> Seq<Tree>
    decreases s,
{
    Seq::new(
        s.len(),
        |i: int|
            if 0 <= i < s.len() {
                wrap(s[i])
            } else {
                Tree::Num(0)
            },
    )
}

/// Every tree of the sequence is free of program nodes.
pub open spec fn all_program_free(s: Seq<Tree>) -> bool {
    forall|i: int| 0 <= i < s.len() ==> #[trigger] program_free(s[i])
}

/// What the transformer makes of a tree: a program whose forms are free of
/// nested programs is rewritten; anything else is refused.
pub open spec fn transform(t: Tree) -> Result<Tree, TransformError> {
    match t {
        Tree::Program(body) => if all_program_free(body) {
            Ok(wrap(t))
        } else {
            Err(TransformError::NestedProgram)
        },
        _ => Err(TransformError::NotAProgram),
    }
}

/// Rewrites a program: each top-level form is rewritten into a fresh tree.
pub fn transformer(ast: Node) -> (r: Result<Node, TransformError>)
    ensures
        r is Ok <==> transform(ast@) is Ok,
        r matches Ok(m) ==> transform(ast@) == Ok::<Tree, TransformError>(m@),
        r matches Err(e) ==> transform(ast@) == Err::<Tree, TransformError>(e),
{
    match ast {
        Node::ExpressionStatement(body) => {
            proof {
                lemma_program_view(body);
            }
            let transformed_body = transform_nodes(&body)?;
            proof {
                lemma_program_view(transformed_body);
            }
            Ok(Node::ExpressionStatement(transformed_body))
        },
        _ => Err(TransformError::NotAProgram),
    }
}

/// Rewrites each node of a sequence, in order.
fn transform_nodes(nodes: &Vec<Node>) -> (r: Result<Vec<Node>, TransformError>)
    ensures
        all_program_free(trees(nodes@)) ==> r is Ok,
        r matches Ok(ms) ==> trees(ms@) == wrap_all(trees(nodes@)),
        !all_program_free(trees(nodes@)) ==> r == Err::<Vec<Node>, TransformError>(
            TransformError::NestedProgram,
        ),
    decreases nodes,
{
    let mut out: Vec<Node> = Vec::new();
    let n = nodes.len();
    for i in 0..n
        invariant
            n == nodes.len(),
            trees(out@) == wrap_all(trees(nodes@)).take(i as int),
            forall|j: int| 0 <= j < i ==> #[trigger] program_free(trees(nodes@)[j]),
    {
        assert(decreases_to!(nodes => nodes[i as int]));
        assert(trees(nodes@)[i as int] == nodes@[i as int]@);
        let m = transform_node(&nodes[i])?;
        assert(wrap_all(trees(nodes@))[i as int] == m@);
        proof {
            lemma_trees_push(out@, m);
        }
        assert(trees(out@.push(m)) =~= wrap_all(trees(nodes@)).take(i + 1));
        out.push(m);
    }
    assert(trees(out@) =~= wrap_all(trees(nodes@)));
    Ok(out)
}

/// Rewrites one node: a call into a call holding an identifier wrapper and
/// an argument-list wrapper, a literal into a call wrapping it.
fn transform_node(node: &Node) -> (r: Result<Node, TransformError>)
    ensures
        program_free(node@) ==> r is Ok,
        r matches Ok(m) ==> m@ == wrap(node@),
        !program_free(node@) ==> r == Err::<Node, TransformError>(TransformError::NestedProgram),
    decreases node,
{
    match node {
        Node::Fun(name, params) => {
            proof {
                lemma_call_view(*name, *params);
                assert(node@ == Tree::Call(name@, trees(params@)));
                lemma_call_program_free(name@, trees(params@));
            }
            let transformed_params = transform_nodes(params)?;
            let id_tag = String::from_str("Identifier");
            let id_body = vec![Node::String(name.clone())];
            let args_tag = String::from_str("Arguments");
            proof {
                lemma_call_view(id_tag, id_body);
                lemma_call_view(args_tag, transformed_params);
                assert(trees(id_body@) =~= seq![Tree::Str(name@)]);
            }
            let id = Node::Fun(id_tag, id_body);
            let arguments = Node::Fun(args_tag, transformed_params);
            let wrappers = vec![id, arguments];
            proof {
                lemma_call_view(*name, wrappers);
                assert(trees(wrappers@) =~= seq![id@, arguments@]);
            }
            Ok(Node::Fun(name.clone(), wrappers))
        },
        Node::Number(value) => {
            let tag = String::from_str("NumberLiteral");
            let body = vec![Node::Number(*value)];
            proof {
                lemma_call_view(tag, body);
                assert(trees(body@) =~= seq![Tree::Num(*value as int)]);
            }
            Ok(Node::Fun(tag, body))
        },
        Node::String(value) => {
            let tag = String::from_str("StringLiteral");
            let body = vec![Node::String(value.clone())];
            proof {
                lemma_call_view(tag, body);
                assert(trees(body@) =~= seq![Tree::Str(value@)]);
            }
            Ok(Node::Fun(tag, body))
        },
        Node::ExpressionStatement(_) => Err(TransformError::NestedProgram),
    }
}

} // verus!
