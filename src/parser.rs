//! The parse tree and the recursive-descent parser that builds it.
use vstd::prelude::*;

use crate::tokenizer::{lexemes, Lexeme, Token};

verus! {

/// A tree node, as built by the parser and rewritten by the transformer.
#[derive(Debug, PartialEq, Eq)]
pub enum Node {
    /// A named call and its arguments.
    Fun(String, Vec<Node>),
    /// A number literal.
    Number(i32),
    /// A string literal.
    String(String),
    /// The root: the top-level forms in source order.
    ExpressionStatement(Vec<Node>),
}

/// The mathematical value of a [`Node`].
pub enum Tree {
    Call(Seq<char>, Seq<Tree>),
    Num(int),
    Str(Seq<char>),
    Program(Seq<Tree>),
}

impl View for Node {
    type V = Tree;

    open spec fn view(&self) -> Tree
        decreases self,
    {
        match self {
            Node::Fun(name, args) => Tree::Call(
                name@,
                Seq::new(args.len() as nat, |i: int| if 0 <= i < args.len() { args[i].view() } else { Tree::Num(0) }),
            ),
            Node::Number(v) => Tree::Num(*v as int),
            Node::String(s) => Tree::Str(s@),
            Node::ExpressionStatement(body) => Tree::Program(
                Seq::new(body.len() as nat, |i: int| if 0 <= i < body.len() { body[i].view() } else { Tree::Num(0) }),
            ),
        }
    }
}

/// The views of a sequence of nodes.
pub open spec fn trees(v: Seq<Node>) -> Seq<Tree> {
    v.map_values(|n: Node| n@)
}

/// Why the parser stopped.
#[derive(Debug, Clone, PartialEq, Eq)]
pub enum ParseError {
    /// A token that cannot start a form: an identifier outside the name
    /// position of a call, or a closing parenthesis with no call to close.
    UnexpectedToken(Token),
    /// The tokens ran out inside a call.
    UnterminatedForm,
}

/// The mathematical value of a [`ParseError`].
pub enum SyntaxError {
    Unexpected(Lexeme),
    Unterminated,
}

impl View for ParseError {
    type V = SyntaxError;

    open spec fn view(&self) -> SyntaxError {
        match self {
            ParseError::UnexpectedToken(t) => SyntaxError::Unexpected(t@),
            ParseError::UnterminatedForm => SyntaxError::Unterminated,
        }
    }
}

/// The name of the call whose opening parenthesis stands at `i`: the
/// identifier that follows it, or the empty name when none does.
pub open spec fn call_name(ts: Seq<Lexeme>, i: int) -> Seq<char> {
    if 0 <= i + 1 < ts.len() && ts[i + 1] is Ident {
        ts[i + 1]->Ident_0
    } else {
        Seq::empty()
    }
}

/// Where the arguments of the call opened at `i` begin.
pub open spec fn args_start(ts: Seq<Lexeme>, i: int) -> int {
    if 0 <= i + 1 < ts.len() && ts[i + 1] is Ident {
        i + 2
    } else {
        i + 1
    }
}

/// The form that starts at `i`, and where it ends.
pub open spec fn parse_form(ts: Seq<Lexeme>, i: int) -> Result<(Tree, int), SyntaxError>
    decreases ts.len() - i, 0int,
{
    if i < 0 || i >= ts.len() {
        Err(SyntaxError::Unterminated)
    } else {
        match ts[i] {
            Lexeme::Num(v) => Ok((Tree::Num(v), i + 1)),
            Lexeme::Str(t) => Ok((Tree::Str(t), i + 1)),
            Lexeme::Open => match parse_args(ts, args_start(ts, i)) {
                Ok((args, k)) => Ok((Tree::Call(call_name(ts, i), args), k)),
                Err(e) => Err(e),
            },
            other => Err(SyntaxError::Unexpected(other)),
        }
    }
}

/// The arguments that start at `i`, up to and including the closing
/// parenthesis, and where they end.
pub open spec fn parse_args(ts: Seq<Lexeme>, i: int) -> Result<(Seq<Tree>, int), SyntaxError>
    decreases ts.len() - i, 1int,
{
    if i < 0 || i >= ts.len() {
        Err(SyntaxError::Unterminated)
    } else if ts[i] is Close {
        Ok((Seq::empty(), i + 1))
    } else {
        match parse_form(ts, i) {
            Ok((t, j)) => if i < j <= ts.len() {
                match parse_args(ts, j) {
                    Ok((rest, k)) => Ok((seq![t] + rest, k)),
                    Err(e) => Err(e),
                }
            } else {
                // never taken: a form takes at least one token
                Err(SyntaxError::Unterminated)
            },
            Err(e) => Err(e),
        }
    }
}

/// The top-level forms from `i` to the end of the tokens.
pub open spec fn parse_body(ts: Seq<Lexeme>, i: int) -> Result<Seq<Tree>, SyntaxError>
    decreases ts.len() - i,
{
    if i < 0 || i >= ts.len() {
        Ok(Seq::empty())
    } else {
        match parse_form(ts, i) {
            Ok((t, j)) => if i < j <= ts.len() {
                match parse_body(ts, j) {
                    Ok(rest) => Ok(seq![t] + rest),
                    Err(e) => Err(e),
                }
            } else {
                // never taken: a form takes at least one token
                Err(SyntaxError::Unterminated)
            },
            Err(e) => Err(e),
        }
    }
}

/// The program that a whole token sequence stands for.
pub open spec fn parse(ts: Seq<Lexeme>) -> Result<Tree, SyntaxError> {
    match parse_body(ts, 0) {
        Ok(body) => Ok(Tree::Program(body)),
        Err(e) => Err(e),
    }
}

/// The trees `pre` in front of the arguments of `r`, or the error of `r`.
pub open spec fn prepend_args(pre: Seq<Tree>, r: Result<(Seq<Tree>, int), SyntaxError>) -> Result<
    (Seq<Tree>, int),
    SyntaxError,
> {
    match r {
        Ok((a, k)) => Ok((pre + a, k)),
        Err(e) => Err(e),
    }
}

/// The trees `pre` in front of the forms of `r`, or the error of `r`.
pub open spec fn prepend_body(pre: Seq<Tree>, r: Result<Seq<Tree>, SyntaxError>) -> Result<
    Seq<Tree>,
    SyntaxError,
> {
    match r {
        Ok(b) => Ok(pre + b),
        Err(e) => Err(e),
    }
}

/// `r` is what `s` describes: the same node and end, or the same error.
pub open spec fn form_agrees(
    r: Result<(Node, usize), ParseError>,
    s: Result<(Tree, int), SyntaxError>,
) -> bool {
    match s {
        Ok((t, j)) => r matches Ok((n, k)) && n@ == t && k == j,
        Err(e) => r matches Err(x) && x@ == e,
    }
}

pub proof fn lemma_call_view(name: String, args: Vec<Node>)
    ensures
        Node::Fun(name, args)@ == Tree::Call(name@, trees(args@)),
{
    let v = Node::Fun(name, args)@;
    assert(v->Call_1 =~= trees(args@));
}

pub proof fn lemma_program_view(body: Vec<Node>)
    ensures
        Node::ExpressionStatement(body)@ == Tree::Program(trees(body@)),
{
    let v = Node::ExpressionStatement(body)@;
    assert(v->Program_0 =~= trees(body@));
}

pub proof fn lemma_trees_push(v: Seq<Node>, n: Node)
    ensures
        trees(v.push(n)) == trees(v).push(n@),
{
    assert(trees(v.push(n)) =~= trees(v).push(n@));
}

proof fn lemma_empty_prefix(ts: Seq<Lexeme>, i: int)
    ensures
        prepend_args(Seq::empty(), parse_args(ts, i)) == parse_args(ts, i),
        prepend_body(Seq::empty(), parse_body(ts, i)) == parse_body(ts, i),
{
    if let Ok((a, k)) = parse_args(ts, i) {
        assert(Seq::<Tree>::empty() + a =~= a);
    }
    if let Ok(b) = parse_body(ts, i) {
        assert(Seq::<Tree>::empty() + b =~= b);
    }
}

fn copy_token(t: &Token) -> (r: Token)
    ensures
        r@ == t@,
{
    match t {
        Token::Number(v) => Token::Number(*v),
        Token::Identifier(s) => Token::Identifier(s.clone()),
        Token::String(s) => Token::String(s.clone()),
        Token::OpenParen => Token::OpenParen,
        Token::CloseParen => Token::CloseParen,
    }
}

/// Parses the form that starts at `pos`; on success, also returns where it
/// ends.
fn walk(tokens: &Vec<Token>, pos: usize) -> (r: Result<(Node, usize), ParseError>)
    requires
        pos < tokens.len(),
    ensures
        form_agrees(r, parse_form(lexemes(tokens@), pos as int)),
        r matches Ok((_, k)) ==> pos < k <= tokens.len(),
    decreases tokens.len() - pos,
{
    let ghost ts = lexemes(tokens@);
    match &tokens[pos] {
        Token::Number(v) => Ok((Node::Number(*v), pos + 1)),
        Token::String(s) => Ok((Node::String(s.clone()), pos + 1)),
        Token::OpenParen => {
            let mut name = String::new();
            let mut k = pos + 1;
            if pos + 1 < tokens.len() {
                if let Token::Identifier(n) = &tokens[pos + 1] {
                    name = n.clone();
                    k = pos + 2;
                }
            }
            assert(name@ == call_name(ts, pos as int));
            assert(k == args_start(ts, pos as int));
            let ghost start = k as int;
            assert(ts[pos as int] == Lexeme::Open);
            let mut args: Vec<Node> = Vec::new();
            proof {
                lemma_empty_prefix(ts, start);
                assert(trees(args@) =~= Seq::<Tree>::empty());
            }
            loop
                invariant
                    ts == lexemes(tokens@),
                    pos < start <= k <= tokens.len(),
                    name@ == call_name(ts, pos as int),
                    start == args_start(ts, pos as int),
                    ts[pos as int] == Lexeme::Open,
                    parse_args(ts, start) == prepend_args(trees(args@), parse_args(ts, k as int)),
                decreases tokens.len() - k,
            {
                if k >= tokens.len() {
                    return Err(ParseError::UnterminatedForm);
                }
                assert(ts[k as int] == tokens@[k as int]@);
                if let Token::CloseParen = &tokens[k] {
                    proof {
                        lemma_call_view(name, args);
                        assert(trees(args@) + Seq::<Tree>::empty() =~= trees(args@));
                    }
                    return Ok((Node::Fun(name, args), k + 1));
                }
                match walk(tokens, k) {
                    Err(e) => {
                        return Err(e);
                    },
                    Ok((n, j)) => {
                        proof {
                            lemma_trees_push(args@, n);
                            if let Ok((rest, e)) = parse_args(ts, j as int) {
                                assert(trees(args@) + (seq![n@] + rest) =~= trees(args@).push(n@)
                                    + rest);
                            }
                        }
                        args.push(n);
                        k = j;
                    },
                }
            }
        },
        other => Err(ParseError::UnexpectedToken(copy_token(other))),
    }
}

/// Parses a whole token sequence into a program, stopping at the first
/// error.
///
/// Errors are not swallowed: a form that fails to parse anywhere in the
/// input fails the whole parse.
pub fn parser(tokens: Vec<Token>) -> (r: Result<Node, ParseError>)
    ensures
        r is Ok <==> parse(lexemes(tokens@)) is Ok,
        r matches Ok(p) ==> parse(lexemes(tokens@)) == Ok::<Tree, SyntaxError>(p@),
        r matches Err(e) ==> parse(lexemes(tokens@)) == Err::<Tree, SyntaxError>(e@),
{
    let ghost ts = lexemes(tokens@);
    let mut body: Vec<Node> = Vec::new();
    let mut pos: usize = 0;
    proof {
        lemma_empty_prefix(ts, 0);
        assert(trees(body@) =~= Seq::<Tree>::empty());
    }
    while pos < tokens.len()
        invariant
            ts == lexemes(tokens@),
            pos <= tokens.len(),
            parse_body(ts, 0) == prepend_body(trees(body@), parse_body(ts, pos as int)),
        decreases tokens.len() - pos,
    {
        match walk(&tokens, pos) {
            Err(e) => {
                return Err(e);
            },
            Ok((n, j)) => {
                proof {
                    lemma_trees_push(body@, n);
                    if let Ok(rest) = parse_body(ts, j as int) {
                        assert(trees(body@) + (seq![n@] + rest) =~= trees(body@).push(n@) + rest);
                    }
                }
                body.push(n);
                pos = j;
            },
        }
    }
    proof {
        lemma_program_view(body);
        assert(trees(body@) + Seq::<Tree>::empty() =~= trees(body@));
    }
    Ok(Node::ExpressionStatement(body))
}

} // verus!
