//! Facts about the stages together: a parse tree keeps the names and
//! literals of its tokens, prints once rewritten as the tree in call syntax,
//! and the empty text goes through every stage as empty.
use vstd::prelude::*;

use crate::code_generator::{call_text, emit, emit_from, quoted, EmitError};
use crate::parser::{
    args_start, call_name, parse, parse_args, parse_body, parse_form, SyntaxError, Tree,
};
use crate::text::{decimal_of, is_digit};
use crate::tokenizer::{
    digits_end, lemma_run_ends, quote_pos, scan, scan_from, word_end, LexError, Lexeme,
};
use crate::transformer::{
    all_program_free, lemma_call_program_free, lemma_program_free_from, program_free,
    program_free_from, transform, wrap, wrap_all, TransformError,
};

verus! {

/// A parse tree in call syntax: `name(arg, ...)` for a call, the literal
/// itself for a number or a string, one form per line for a program.
pub open spec fn render(t: Tree) -> Seq<char>
    decreases t, 0nat,
{
    match t {
        Tree::Call(name, args) => call_text(name, render_from(args, 0, ", "@)),
        Tree::Num(v) => decimal_of(v),
        Tree::Str(s) => quoted(s),
        Tree::Program(body) => render_from(body, 0, "\n"@),
    }
}

/// The renderings of the trees of `s` from index `i` on, each after `sep`
/// but the first of `s`.
pub open spec fn render_from(s: Seq<Tree>, i: nat, sep: Seq<char>) -> Seq<char>
    decreases s, s.len() - i,
{
    if i >= s.len() {
        Seq::empty()
    } else {
        (if i == 0 {
            Seq::empty()
        } else {
            sep
        }) + render(s[i as int]) + render_from(s, i + 1, sep)
    }
}

/// A rewritten tree prints as the tree it came from, at any depth: every
/// call name and every literal comes out unchanged and in order.
pub proof fn lemma_emit_wrap(t: Tree)
    requires
        program_free(t),
    ensures
        emit(wrap(t)) == Ok::<Seq<char>, EmitError>(render(t)),
    decreases t, 0nat,
{
    match t {
        Tree::Call(name, args) => {
            lemma_emit_wrap_from(args, 0, ", "@);
        },
        _ => {},
    }
}

/// The list form of [`lemma_emit_wrap`].
pub proof fn lemma_emit_wrap_from(s: Seq<Tree>, i: nat, sep: Seq<char>)
    requires
        program_free_from(s, i),
    ensures
        emit_from(wrap_all(s), i, sep) == Ok::<Seq<char>, EmitError>(
            render_from(s, i, sep),
        ),
    decreases s, s.len() - i,
{
    if i < s.len() {
        assert(wrap_all(s)[i as int] == wrap(s[i as int]));
        lemma_emit_wrap(s[i as int]);
        lemma_emit_wrap_from(s, i + 1, sep);
    }
}

/// A program whose forms hold no nested program is rewritten, and the
/// rewritten program prints as the program in call syntax.
pub proof fn lemma_transform_then_emit(p: Tree)
    requires
        p matches Tree::Program(body) && all_program_free(body),
    ensures
        transform(p) == Ok::<Tree, TransformError>(wrap(p)),
        emit(wrap(p)) == Ok::<Seq<char>, EmitError>(render(p)),
{
    let body = p->Program_0;
    lemma_program_free_from(body, 0);
    lemma_emit_wrap_from(body, 0, "\n"@);
}

/// The empty text scans to no tokens, parses to the empty program, is
/// rewritten to the empty program and prints as the empty text.
pub proof fn lemma_empty_input()
    ensures
        scan(Seq::empty()) == Ok::<Seq<Lexeme>, LexError>(
            Seq::empty(),
        ),
        parse(Seq::empty()) == Ok::<Tree, SyntaxError>(
            Tree::Program(Seq::empty()),
        ),
        transform(Tree::Program(Seq::empty())) == Ok::<Tree, TransformError>(
            Tree::Program(Seq::empty()),
        ),
        emit(Tree::Program(Seq::empty())) == Ok::<Seq<char>, EmitError>(
            Seq::empty(),
        ),
{
    assert(wrap_all(Seq::<Tree>::empty()) =~= Seq::<Tree>::empty());
}

proof fn lemma_all_free_cons(t: Tree, rest: Seq<Tree>)
    requires
        program_free(t),
        all_program_free(rest),
    ensures
        all_program_free(seq![t] + rest),
{
    let s = seq![t] + rest;
    assert forall|k: int| 0 <= k < s.len() implies program_free(s[k]) by {
        if k > 0 {
            assert(s[k] == rest[k - 1]);
        }
    }
}

/// A parsed form holds no program node and takes at least one token.
pub proof fn lemma_form_program_free(ts: Seq<Lexeme>, i: int)
    ensures
        parse_form(ts, i) matches Ok((t, j)) ==> program_free(t) && i < j <= ts.len(),
    decreases ts.len() - i, 0int,
{
    if 0 <= i < ts.len() && ts[i] is Open {
        lemma_args_program_free(ts, args_start(ts, i));
        if let Ok((args, k)) = parse_args(ts, args_start(ts, i)) {
            lemma_call_program_free(call_name(ts, i), args);
        }
    }
}

/// Parsed arguments hold no program node and end after where they start.
pub proof fn lemma_args_program_free(ts: Seq<Lexeme>, i: int)
    ensures
        parse_args(ts, i) matches Ok((a, k)) ==> all_program_free(a) && i < k <= ts.len(),
    decreases ts.len() - i, 1int,
{
    if 0 <= i < ts.len() && !(ts[i] is Close) {
        lemma_form_program_free(ts, i);
        if let Ok((t, j)) = parse_form(ts, i) {
            lemma_args_program_free(ts, j);
            if let Ok((rest, k)) = parse_args(ts, j) {
                lemma_all_free_cons(t, rest);
            }
        }
    }
}

/// The top-level forms of a parse hold no program node.
pub proof fn lemma_body_program_free(ts: Seq<Lexeme>, i: int)
    ensures
        parse_body(ts, i) matches Ok(b) ==> all_program_free(b),
    decreases ts.len() - i,
{
    if 0 <= i < ts.len() {
        lemma_form_program_free(ts, i);
        if let Ok((t, j)) = parse_form(ts, i) {
            lemma_body_program_free(ts, j);
            if let Ok(rest) = parse_body(ts, j) {
                lemma_all_free_cons(t, rest);
            }
        }
    }
}

/// A token that carries a name or a literal, as opposed to a parenthesis.
pub open spec fn is_atom(l: Lexeme) -> bool {
    !(l is Open) && !(l is Close)
}

/// The names and literals among the tokens from `i` up to `j`, in order.
pub open spec fn atoms_between(ts: Seq<Lexeme>, i: int, j: int) -> Seq<Lexeme>
    decreases j - i,
{
    if i >= j {
        Seq::empty()
    } else {
        (if is_atom(ts[i]) {
            seq![ts[i]]
        } else {
            Seq::empty()
        }) + atoms_between(ts, i + 1, j)
    }
}

/// The names and literals of a tree, in the order of its text: a call's
/// name (when it has one) before its arguments.
pub open spec fn tree_atoms(t: Tree) -> Seq<Lexeme>
    decreases t, 0nat,
{
    match t {
        Tree::Call(name, args) => (if name.len() == 0 {
            Seq::empty()
        } else {
            seq![Lexeme::Ident(name)]
        }) + atoms_from(args, 0),
        Tree::Num(v) => seq![Lexeme::Num(v)],
        Tree::Str(s) => seq![Lexeme::Str(s)],
        Tree::Program(body) => atoms_from(body, 0),
    }
}

/// The names and literals of the trees of `s` from index `i` on.
pub open spec fn atoms_from(s: Seq<Tree>, i: nat) -> Seq<Lexeme>
    decreases s, s.len() - i,
{
    if i >= s.len() {
        Seq::empty()
    } else {
        tree_atoms(s[i as int]) + atoms_from(s, i + 1)
    }
}

/// Every identifier among the tokens has a name of at least one character.
pub open spec fn identifiers_named(ts: Seq<Lexeme>) -> bool {
    forall|k: int| 0 <= k < ts.len() && #[trigger] ts[k] is Ident ==> ts[k]->Ident_0.len() > 0
}

proof fn lemma_atoms_split(ts: Seq<Lexeme>, i: int, j: int, k: int)
    requires
        i <= j <= k,
    ensures
        atoms_between(ts, i, k) == atoms_between(ts, i, j) + atoms_between(ts, j, k),
    decreases j - i,
{
    if i < j {
        lemma_atoms_split(ts, i + 1, j, k);
        let head = if is_atom(ts[i]) {
            seq![ts[i]]
        } else {
            Seq::empty()
        };
        assert(head + (atoms_between(ts, i + 1, j) + atoms_between(ts, j, k)) =~= (head
            + atoms_between(ts, i + 1, j)) + atoms_between(ts, j, k));
    } else {
        assert(Seq::<Lexeme>::empty() + atoms_between(ts, j, k) =~= atoms_between(ts, j, k));
    }
}

proof fn lemma_atoms_shift(t: Tree, rest: Seq<Tree>, n: nat)
    ensures
        atoms_from(seq![t] + rest, n + 1) == atoms_from(rest, n),
    decreases rest.len() - n,
{
    if n < rest.len() {
        assert((seq![t] + rest)[n + 1int] == rest[n as int]);
        lemma_atoms_shift(t, rest, n + 1);
    }
}

proof fn lemma_atoms_cons(t: Tree, rest: Seq<Tree>)
    ensures
        atoms_from(seq![t] + rest, 0) == tree_atoms(t) + atoms_from(rest, 0),
{
    assert((seq![t] + rest)[0] == t);
    lemma_atoms_shift(t, rest, 0);
}

proof fn lemma_atoms_single(ts: Seq<Lexeme>, i: int)
    ensures
        atoms_between(ts, i, i + 1) == (if is_atom(ts[i]) {
            seq![ts[i]]
        } else {
            Seq::<Lexeme>::empty()
        }),
{
    assert(atoms_between(ts, i + 1, i + 1) == Seq::<Lexeme>::empty());
    assert(seq![ts[i]] + Seq::<Lexeme>::empty() =~= seq![ts[i]]);
    assert(Seq::<Lexeme>::empty() + Seq::<Lexeme>::empty() =~= Seq::<Lexeme>::empty());
}

/// A parsed form holds the names and literals of the tokens it took.
pub proof fn lemma_form_atoms(ts: Seq<Lexeme>, i: int)
    requires
        identifiers_named(ts),
    ensures
        parse_form(ts, i) matches Ok((t, j)) ==> tree_atoms(t) == atoms_between(ts, i, j),
    decreases ts.len() - i, 0int,
{
    lemma_form_program_free(ts, i);
    if 0 <= i < ts.len() {
        lemma_atoms_single(ts, i);
        if ts[i] is Open {
            let a = args_start(ts, i);
            lemma_args_atoms(ts, a);
            lemma_args_program_free(ts, a);
            if let Ok((args, k)) = parse_args(ts, a) {
                lemma_atoms_split(ts, i, i + 1, k);
                assert(Seq::<Lexeme>::empty() + atoms_between(ts, i + 1, k) =~= atoms_between(
                    ts,
                    i + 1,
                    k,
                ));
                if a == i + 2 {
                    lemma_atoms_single(ts, i + 1);
                    lemma_atoms_split(ts, i + 1, i + 2, k);
                    assert(ts[i + 1] is Ident);
                    assert(call_name(ts, i).len() > 0);
                } else {
                    assert(Seq::<Lexeme>::empty() + atoms_from(args, 0) =~= atoms_from(args, 0));
                }
            }
        }
    }
}

/// Parsed arguments hold the names and literals of the tokens they took.
pub proof fn lemma_args_atoms(ts: Seq<Lexeme>, i: int)
    requires
        identifiers_named(ts),
    ensures
        parse_args(ts, i) matches Ok((a, k)) ==> atoms_from(a, 0) == atoms_between(ts, i, k),
    decreases ts.len() - i, 1int,
{
    lemma_args_program_free(ts, i);
    if 0 <= i < ts.len() {
        if ts[i] is Close {
            lemma_atoms_single(ts, i);
        } else {
            lemma_form_atoms(ts, i);
            lemma_form_program_free(ts, i);
            if let Ok((t, j)) = parse_form(ts, i) {
                lemma_args_atoms(ts, j);
                lemma_args_program_free(ts, j);
                if let Ok((rest, k)) = parse_args(ts, j) {
                    lemma_atoms_cons(t, rest);
                    lemma_atoms_split(ts, i, j, k);
                }
            }
        }
    }
}

/// The parsed top-level forms hold the names and literals of the tokens.
pub proof fn lemma_body_atoms(ts: Seq<Lexeme>, i: int)
    requires
        identifiers_named(ts),
        0 <= i <= ts.len(),
    ensures
        parse_body(ts, i) matches Ok(b) ==> atoms_from(b, 0) == atoms_between(ts, i, ts.len() as int),
    decreases ts.len() - i,
{
    if i < ts.len() {
        lemma_form_atoms(ts, i);
        lemma_form_program_free(ts, i);
        if let Ok((t, j)) = parse_form(ts, i) {
            lemma_body_atoms(ts, j);
            if let Ok(rest) = parse_body(ts, j) {
                lemma_atoms_cons(t, rest);
                lemma_atoms_split(ts, i, j, ts.len() as int);
            }
        }
    }
}

proof fn lemma_named_cons(t: Lexeme, rest: Seq<Lexeme>)
    requires
        identifiers_named(rest),
        t is Ident ==> t->Ident_0.len() > 0,
    ensures
        identifiers_named(seq![t] + rest),
{
    let s = seq![t] + rest;
    assert forall|k: int| 0 <= k < s.len() && #[trigger] s[k] is Ident implies s[k]->Ident_0.len()
        > 0 by {
        if k > 0 {
            assert(s[k] == rest[k - 1]);
        }
    }
}

/// The scanner makes no identifier with an empty name.
pub proof fn lemma_scan_identifiers_named(s: Seq<char>, i: int)
    ensures
        scan_from(s, i) matches Ok(ts) ==> identifiers_named(ts),
    decreases s.len() - i,
{
    if 0 <= i < s.len() {
        lemma_run_ends(s, i + 1);
        let c = s[i];
        let next = if c == '(' || c == ')' || c == ' ' {
            i + 1
        } else if is_digit(c) {
            digits_end(s, i + 1)
        } else if c == '"' {
            quote_pos(s, i + 1) + 1
        } else {
            word_end(s, i + 1)
        };
        if next <= s.len() {
            lemma_scan_identifiers_named(s, next);
        }
        if let Ok(rest) = scan_from(s, next) {
            if c != ' ' && scan_from(s, i) is Ok {
                let t = scan_from(s, i)->Ok_0[0];
                assert(scan_from(s, i)->Ok_0 =~= seq![t] + rest);
                lemma_named_cons(t, rest);
            }
        }
    }
}

/// Whatever text scans and parses keeps, in its parse tree, the names and
/// literals of its tokens, unchanged and in order; the tree is rewritten
/// without error and the rewritten tree prints without error as the parse
/// tree in call syntax, at any depth of nesting.
pub proof fn lemma_round_trip(x: Seq<char>)
    requires
        scan(x) is Ok,
        parse(scan(x)->Ok_0) is Ok,
    ensures
        ({
            let ts = scan(x)->Ok_0;
            let p = parse(ts)->Ok_0;
            &&& tree_atoms(p) == atoms_between(ts, 0, ts.len() as int)
            &&& transform(p) == Ok::<Tree, TransformError>(wrap(p))
            &&& emit(wrap(p)) == Ok::<Seq<char>, EmitError>(render(p))
        }),
{
    let ts = scan(x)->Ok_0;
    lemma_scan_identifiers_named(x, 0);
    lemma_body_atoms(ts, 0);
    lemma_body_program_free(ts, 0);
    lemma_transform_then_emit(parse(ts)->Ok_0);
}

} // verus!
