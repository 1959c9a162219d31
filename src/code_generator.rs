//! The emitter: prints a tree in conventional call syntax.
use vstd::prelude::*;
use vstd::string::StringExecFns;

use crate::parser::{lemma_call_view, lemma_program_view, trees, Node, Tree};
use crate::text::{decimal_of, push_decimal};
use crate::transformer::{arguments_tag, identifier_tag, number_tag, string_tag};

verus! {

/// Why the emitter stopped.
#[derive(Debug, Clone, Copy, PartialEq, Eq, Structural)]
pub enum EmitError {
    /// A call holds an identifier wrapper and an argument-list wrapper, but
    /// the identifier wrapper does not hold exactly one string.
    MalformedIdentifier,
}

/// A string literal as it is printed: between double quotes, unescaped.
pub open spec fn quoted(s: Seq<char>) -> Seq<char> {
    "\""@ + s + "\""@
}

/// `name(args)`.
pub open spec fn call_text(name: Seq<char>, args: Seq<char>) -> Seq<char> {
    name + "("@ + args + ")"@
}

/// The call is tagged `tag`.
pub open spec fn has_tag(t: Tree, tag: Seq<char>) -> bool {
    t matches Tree::Call(name, _) && name == tag
}

/// The arguments are an identifier wrapper followed by an argument-list
/// wrapper, as the transformer makes them.
pub open spec fn is_wrapped_call(args: Seq<Tree>) -> bool {
    &&& args.len() == 2
    &&& has_tag(args[0], identifier_tag())
    &&& has_tag(args[1], arguments_tag())
}

/// The text of a tree.
pub open spec fn emit(t: Tree) -> Result<Seq<char>, EmitError>
    decreases t, 0nat,
{
    match t {
        Tree::Program(body) => emit_from(body, 0, "\n"@),
        Tree::Num(v) => Ok(decimal_of(v)),
        Tree::Str(s) => Ok(quoted(s)),
        Tree::Call(name, args) => if is_wrapped_call(args) {
            let id = args[0]->Call_1;
            if id.len() == 1 && id[0] is Str {
                match emit_from(args[1]->Call_1, 0, ", "@) {
                    Ok(a) => Ok(call_text(id[0]->Str_0, a)),
                    Err(e) => Err(e),
                }
            } else {
                Err(EmitError::MalformedIdentifier)
            }
        } else if name == number_tag() && args.len() == 1 && args[0] is Num {
            Ok(decimal_of(args[0]->Num_0))
        } else if name == string_tag() && args.len() == 1 && args[0] is Str {
            Ok(quoted(args[0]->Str_0))
        } else {
            match emit_from(args, 0, ", "@) {
                Ok(a) => Ok(call_text(name, a)),
                Err(e) => Err(e),
            }
        },
    }
}

/// The texts of the trees of `s` from index `i` on, each after `sep` but the
/// first of `s`.
pub open spec fn emit_from(s: Seq<Tree>, i: nat, sep: Seq<char>) -> Result<Seq<char>, EmitError>
    decreases s, s.len() - i,
{
    if i >= s.len() {
        Ok(Seq::empty())
    } else {
        match emit(s[i as int]) {
            Err(e) => Err(e),
            Ok(x) => match emit_from(s, i + 1, sep) {
                Ok(rest) => Ok(
                    (if i == 0 {
                        Seq::empty()
                    } else {
                        sep
                    }) + x + rest,
                ),
                Err(e) => Err(e),
            },
        }
    }
}

/// The text `pre` in front of the text of `r`, or the error of `r`.
pub open spec fn prefix_text(pre: Seq<char>, r: Result<Seq<char>, EmitError>) -> Result<
    Seq<char>,
    EmitError,
> {
    match r {
        Ok(x) => Ok(pre + x),
        Err(e) => Err(e),
    }
}

/// Prints a tree in call syntax.
///
/// A program prints its forms one per line. A call that holds an identifier
/// wrapper and an argument-list wrapper prints as `name(arg, ...)` with the
/// name from the identifier wrapper; a number or string literal wrapper
/// prints as the literal; any other call prints as `name(arg, ...)` with
/// its own name and children. The result is all or nothing.
pub fn code_generator(node: &Node) -> (r: Result<String, EmitError>)
    ensures
        r is Ok <==> emit(node@) is Ok,
        r matches Ok(text) ==> emit(node@) == Ok::<Seq<char>, EmitError>(text@),
        r matches Err(e) ==> emit(node@) == Err::<Seq<char>, EmitError>(e),
{
    let mut out = String::new();
    match emit_node(node, &mut out) {
        Ok(()) => {
            assert(out@ =~= emit(node@)->Ok_0);
            Ok(out)
        },
        Err(e) => Err(e),
    }
}

fn is_tagged(node: &Node, tag: &String) -> (b: bool)
    ensures
        b == has_tag(node@, tag@),
{
    match node {
        Node::Fun(name, _) => *name == *tag,
        _ => false,
    }
}

/// Appends the text of `node` to `out`.
fn emit_node(node: &Node, out: &mut String) -> (r: Result<(), EmitError>)
    ensures
        r is Ok <==> emit(node@) is Ok,
        r is Ok ==> final(out)@ == old(out)@ + emit(node@)->Ok_0,
        r matches Err(e) ==> emit(node@) == Err::<Seq<char>, EmitError>(e),
    decreases node,
{
    match node {
        Node::ExpressionStatement(body) => {
            proof {
                lemma_program_view(*body);
            }
            emit_list(body, "\n", out)
        },
        Node::Number(v) => {
            push_decimal(out, *v);
            Ok(())
        },
        Node::String(s) => {
            out.append("\"");
            out.append(s.as_str());
            out.append("\"");
            Ok(())
        },
        Node::Fun(name, args) => {
            proof {
                lemma_call_view(*name, *args);
            }
            let ghost ts = trees(args@);
            let identifier = String::from_str("Identifier");
            let arguments = String::from_str("Arguments");
            if args.len() == 2 && is_tagged(&args[0], &identifier) && is_tagged(
                &args[1],
                &arguments,
            ) {
                assert(ts[0] == args@[0]@ && ts[1] == args@[1]@);
                if let Node::Fun(id_tag, id) = &args[0] {
                    if let Node::Fun(args_tag, inner) = &args[1] {
                        proof {
                            lemma_call_view(*id_tag, *id);
                            lemma_call_view(*args_tag, *inner);
                        }
                        if id.len() == 1 {
                            if let Node::String(callee) = &id[0] {
                                assert(trees(id@)[0] == id@[0]@);
                                assert(decreases_to!(node => inner));
                                out.append(callee.as_str());
                                out.append("(");
                                emit_list(inner, ", ", out)?;
                                out.append(")");
                                return Ok(());
                            }
                        }
                        assert(!(trees(id@).len() == 1 && trees(id@)[0] is Str)) by {
                            if id.len() == 1 {
                                assert(trees(id@)[0] == id@[0]@);
                            }
                        }
                        return Err(EmitError::MalformedIdentifier);
                    }
                }
            }
            if args.len() == 1 {
                assert(ts[0] == args@[0]@);
                if let Node::Number(v) = &args[0] {
                    if *name == String::from_str("NumberLiteral") {
                        push_decimal(out, *v);
                        return Ok(());
                    }
                }
                if let Node::String(s) = &args[0] {
                    if *name == String::from_str("StringLiteral") {
                        out.append("\"");
                        out.append(s.as_str());
                        out.append("\"");
                        return Ok(());
                    }
                }
            }
            out.append(name.as_str());
            out.append("(");
            emit_list(args, ", ", out)?;
            out.append(")");
            Ok(())
        },
    }
}

/// Appends the texts of `nodes` to `out`, with `sep` between each two.
fn emit_list(nodes: &Vec<Node>, sep: &str, out: &mut String) -> (r: Result<(), EmitError>)
    ensures
        r is Ok <==> emit_from(trees(nodes@), 0, sep@) is Ok,
        r is Ok ==> final(out)@ == old(out)@ + emit_from(trees(nodes@), 0, sep@)->Ok_0,
        r matches Err(e) ==> emit_from(trees(nodes@), 0, sep@) == Err::<Seq<char>, EmitError>(e),
    decreases nodes,
{
    let ghost ts = trees(nodes@);
    let ghost start = out@;
    let ghost mut acc = Seq::<char>::empty();
    assert(prefix_text(acc, emit_from(ts, 0, sep@)) == emit_from(ts, 0, sep@)) by {
        if let Ok(x) = emit_from(ts, 0, sep@) {
            assert(acc + x =~= x);
        }
    }
    let n = nodes.len();
    for i in 0..n
        invariant
            n == nodes.len(),
            ts == trees(nodes@),
            out@ == start + acc,
            emit_from(ts, 0, sep@) == prefix_text(acc, emit_from(ts, i as nat, sep@)),
    {
        let ghost before = out@;
        if i > 0 {
            out.append(sep);
        }
        assert(decreases_to!(nodes => nodes[i as int]));
        assert(ts[i as int] == nodes@[i as int]@);
        emit_node(&nodes[i], out)?;
        proof {
            let lead = if i == 0 {
                Seq::<char>::empty()
            } else {
                sep@
            };
            let x = emit(ts[i as int])->Ok_0;
            if let Ok(rest) = emit_from(ts, (i + 1) as nat, sep@) {
                assert(acc + (lead + x + rest) =~= (acc + lead + x) + rest);
            }
            acc = acc + lead + x;
            assert(out@ =~= start + acc);
        }
    }
    assert(out@ =~= start + emit_from(ts, 0, sep@)->Ok_0) by {
        assert(acc + Seq::<char>::empty() =~= acc);
    }
    Ok(())
}

} // verus!
