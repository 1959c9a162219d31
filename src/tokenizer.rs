//! The scanner: one left-to-right pass from text to tokens.
use vstd::prelude::*;

use crate::text::{chars_of, digit_value, is_digit, push_char};

verus! {

/// A lexical token.
#[derive(Debug, Clone, PartialEq, Eq)]
pub enum Token {
    Number(i32),
    Identifier(String),
    String(String),
    OpenParen,
    CloseParen,
}

/// The mathematical value of a [`Token`].
pub enum Lexeme {
    Num(int),
    Ident(Seq<char>),
    Str(Seq<char>),
    Open,
    Close,
}

impl View for Token {
    type V = Lexeme;

    open spec fn view(&self) -> Lexeme {
        match self {
            Token::Number(v) => Lexeme::Num(*v as int),
            Token::Identifier(s) => Lexeme::Ident(s@),
            Token::String(s) => Lexeme::Str(s@),
            Token::OpenParen => Lexeme::Open,
            Token::CloseParen => Lexeme::Close,
        }
    }
}

/// Why the scanner stopped.
#[derive(Debug, Clone, Copy, PartialEq, Eq, Structural)]
pub enum LexError {
    /// A character that starts no token.
    UnexpectedChar(char),
    /// A string literal without its closing quote.
    UnterminatedString,
    /// A run of digits whose value does not fit in an `i32`.
    NumberTooLarge,
}

/// The views of a sequence of tokens.
pub open spec fn lexemes(ts: Seq<Token>) -> Seq<Lexeme> {
    ts.map_values(|t: Token| t@)
}

/// The ASCII letters, with which an identifier starts.
pub open spec fn is_letter(c: char) -> bool {
    ('a' <= c && c <= 'z') || ('A' <= c && c <= 'Z')
}

/// Characters that may follow the first letter of an identifier.
pub open spec fn is_word_char(c: char) -> bool {
    is_letter(c) || c == '_'
}

/// The end of the run of digits that starts at `i`.
pub open spec fn digits_end(s: Seq<char>, i: int) -> int
    decreases s.len() - i,
{
    if 0 <= i < s.len() && is_digit(s[i]) {
        digits_end(s, i + 1)
    } else {
        i
    }
}

/// The end of the run of letters and underscores that starts at `i`.
pub open spec fn word_end(s: Seq<char>, i: int) -> int
    decreases s.len() - i,
{
    if 0 <= i < s.len() && is_word_char(s[i]) {
        word_end(s, i + 1)
    } else {
        i
    }
}

/// The position of the first double quote at or after `i`, or the length
/// of `s` when there is none.
pub open spec fn quote_pos(s: Seq<char>, i: int) -> int
    decreases s.len() - i,
{
    if 0 <= i < s.len() && s[i] != '"' {
        quote_pos(s, i + 1)
    } else {
        i
    }
}

/// The value of a sequence of decimal digits.
pub open spec fn number_value(d: Seq<char>) -> int
    decreases d.len(),
{
    if d.len() == 0 {
        0
    } else {
        number_value(d.drop_last()) * 10 + digit_value(d.last())
    }
}

/// The tokens `pre` in front of the tokens of `r`, or the error of `r`.
pub open spec fn prefixed(pre: Seq<Lexeme>, r: Result<Seq<Lexeme>, LexError>) -> Result<
    Seq<Lexeme>,
    LexError,
> {
    match r {
        Ok(ts) => Ok(pre + ts),
        Err(e) => Err(e),
    }
}

/// The token `t` in front of the tokens of `r`, or the error of `r`.
pub open spec fn cons_ok(t: Lexeme, r: Result<Seq<Lexeme>, LexError>) -> Result<
    Seq<Lexeme>,
    LexError,
> {
    prefixed(seq![t], r)
}

/// A run ends at or after its start, and within the text.
pub proof fn lemma_run_ends(s: Seq<char>, i: int)
    ensures
        i <= digits_end(s, i),
        i <= word_end(s, i),
        i <= quote_pos(s, i),
        i <= s.len() ==> digits_end(s, i) <= s.len(),
        i <= s.len() ==> word_end(s, i) <= s.len(),
        i <= s.len() ==> quote_pos(s, i) <= s.len(),
    decreases s.len() - i,
{
    if 0 <= i < s.len() {
        lemma_run_ends(s, i + 1);
    }
}

/// The tokens of `s` from position `i` on, or the first error there.
pub open spec fn scan_from(s: Seq<char>, i: int) -> Result<Seq<Lexeme>, LexError>
    decreases s.len() - i,
{
    if i < 0 || i >= s.len() {
        Ok(Seq::empty())
    } else {
        proof {
            lemma_run_ends(s, i + 1);
        }
        let c = s[i];
        if c == '(' {
            cons_ok(Lexeme::Open, scan_from(s, i + 1))
        } else if c == ')' {
            cons_ok(Lexeme::Close, scan_from(s, i + 1))
        } else if c == ' ' {
            scan_from(s, i + 1)
        } else if is_digit(c) {
            let e = digits_end(s, i + 1);
            let v = number_value(s.subrange(i, e));
            if v > i32::MAX {
                Err(LexError::NumberTooLarge)
            } else {
                cons_ok(Lexeme::Num(v), scan_from(s, e))
            }
        } else if c == '"' {
            let e = quote_pos(s, i + 1);
            if e >= s.len() {
                Err(LexError::UnterminatedString)
            } else {
                cons_ok(Lexeme::Str(s.subrange(i + 1, e)), scan_from(s, e + 1))
            }
        } else if is_letter(c) {
            let e = word_end(s, i + 1);
            cons_ok(Lexeme::Ident(s.subrange(i, e)), scan_from(s, e))
        } else {
            Err(LexError::UnexpectedChar(c))
        }
    }
}

/// The tokens of a whole text.
pub open spec fn scan(s: Seq<char>) -> Result<Seq<Lexeme>, LexError> {
    scan_from(s, 0)
}

proof fn lemma_prefixed_push(pre: Seq<Lexeme>, t: Lexeme, r: Result<Seq<Lexeme>, LexError>)
    ensures
        prefixed(pre, cons_ok(t, r)) == prefixed(pre.push(t), r),
{
    if let Ok(ts) = r {
        assert(pre + (seq![t] + ts) =~= pre.push(t) + ts);
    }
}

proof fn lemma_lexemes_push(ts: Seq<Token>, t: Token)
    ensures
        lexemes(ts.push(t)) == lexemes(ts).push(t@),
{
    assert(lexemes(ts.push(t)) =~= lexemes(ts).push(t@));
}

/// Appends `t` to `tokens` where the scan from `i` begins with `t` and goes
/// on at `next`.
fn push_token(
    tokens: &mut Vec<Token>,
    t: Token,
    Ghost(s): Ghost<Seq<char>>,
    Ghost(i): Ghost<int>,
    Ghost(next): Ghost<int>,
)
    requires
        scan(s) == prefixed(lexemes(old(tokens)@), scan_from(s, i)),
        scan_from(s, i) == cons_ok(t@, scan_from(s, next)),
    ensures
        scan(s) == prefixed(lexemes(final(tokens)@), scan_from(s, next)),
{
    proof {
        lemma_prefixed_push(lexemes(tokens@), t@, scan_from(s, next));
        lemma_lexemes_push(tokens@, t);
    }
    tokens.push(t);
}

/// Scans `input` into tokens, left to right, stopping at the first error.
pub fn tokenizer(input: &str) -> (r: Result<Vec<Token>, LexError>)
    ensures
        r is Ok <==> scan(input@) is Ok,
        r matches Ok(ts) ==> scan(input@) == Ok::<Seq<Lexeme>, LexError>(lexemes(ts@)),
        r matches Err(e) ==> scan(input@) == Err::<Seq<Lexeme>, LexError>(e),
{
    let s = chars_of(input);
    let n = s.len();
    let mut tokens: Vec<Token> = Vec::new();
    let mut i: usize = 0;
    assert(lexemes(tokens@) =~= Seq::<Lexeme>::empty());
    assert(scan(s@) == prefixed(lexemes(tokens@), scan_from(s@, 0))) by {
        if let Ok(ts) = scan_from(s@, 0) {
            assert(Seq::<Lexeme>::empty() + ts =~= ts);
        }
    }
    while i < n
        invariant
            s@ == input@,
            n == s.len(),
            i <= n,
            scan(s@) == prefixed(lexemes(tokens@), scan_from(s@, i as int)),
        decreases n - i,
    {
        let c = s[i];
        proof {
            lemma_run_ends(s@, i + 1);
        }
        if c == '(' {
            push_token(&mut tokens, Token::OpenParen, Ghost(s@), Ghost(i as int), Ghost(i + 1));
            i = i + 1;
        } else if c == ')' {
            push_token(&mut tokens, Token::CloseParen, Ghost(s@), Ghost(i as int), Ghost(i + 1));
            i = i + 1;
        } else if c == ' ' {
            i = i + 1;
        } else if '0' <= c && c <= '9' {
            let start = i;
            let mut value: u64 = (c as u32 - '0' as u32) as u64;
            let mut too_large = false;
            i = i + 1;
            assert(s@.subrange(start as int, i as int).drop_last() =~= Seq::<char>::empty());
            assert(number_value(Seq::<char>::empty()) == 0);
            assert(s@.subrange(start as int, i as int).last() == c);
            while i < n && '0' <= s[i] && s[i] <= '9'
                invariant
                    s@ == input@,
                    n == s.len(),
                    start < i <= n,
                    digits_end(s@, i as int) == digits_end(s@, start + 1),
                    too_large <==> number_value(s@.subrange(start as int, i as int)) > i32::MAX,
                    !too_large ==> value == number_value(s@.subrange(start as int, i as int)),
                    value <= i32::MAX,
                decreases n - i,
            {
                let d = (s[i] as u32 - '0' as u32) as u64;
                assert(s@.subrange(start as int, i + 1).drop_last() =~= s@.subrange(
                    start as int,
                    i as int,
                ));
                if !too_large {
                    let next = value * 10 + d;
                    if next > i32::MAX as u64 {
                        too_large = true;
                    } else {
                        value = next;
                    }
                }
                i = i + 1;
            }
            if too_large {
                return Err(LexError::NumberTooLarge);
            }
            push_token(
                &mut tokens,
                Token::Number(value as i32),
                Ghost(s@),
                Ghost(start as int),
                Ghost(i as int),
            );
        } else if c == '"' {
            let start = i;
            let mut text = String::new();
            i = i + 1;
            assert(text@ =~= s@.subrange(start + 1, i as int));
            while i < n && s[i] != '"'
                invariant
                    s@ == input@,
                    n == s.len(),
                    start < i <= n,
                    quote_pos(s@, i as int) == quote_pos(s@, start + 1),
                    text@ == s@.subrange(start + 1, i as int),
                decreases n - i,
            {
                push_char(&mut text, s[i]);
                i = i + 1;
                assert(text@ =~= s@.subrange(start + 1, i as int));
            }
            if i >= n {
                return Err(LexError::UnterminatedString);
            }
            push_token(
                &mut tokens,
                Token::String(text),
                Ghost(s@),
                Ghost(start as int),
                Ghost(i + 1),
            );
            i = i + 1;
        } else if ('a' <= c && c <= 'z') || ('A' <= c && c <= 'Z') {
            let start = i;
            let mut word = String::new();
            push_char(&mut word, c);
            i = i + 1;
            assert(word@ =~= s@.subrange(start as int, i as int));
            while i < n && (('a' <= s[i] && s[i] <= 'z') || ('A' <= s[i] && s[i] <= 'Z') || s[i]
                == '_')
                invariant
                    s@ == input@,
                    n == s.len(),
                    start < i <= n,
                    word_end(s@, i as int) == word_end(s@, start + 1),
                    word@ == s@.subrange(start as int, i as int),
                decreases n - i,
            {
                push_char(&mut word, s[i]);
                i = i + 1;
                assert(word@ =~= s@.subrange(start as int, i as int));
            }
            push_token(
                &mut tokens,
                Token::Identifier(word),
                Ghost(s@),
                Ghost(start as int),
                Ghost(i as int),
            );
        } else {
            return Err(LexError::UnexpectedChar(c));
        }
    }
    assert(scan(s@) == Ok::<Seq<Lexeme>, LexError>(lexemes(tokens@))) by {
        assert(lexemes(tokens@) + Seq::<Lexeme>::empty() =~= lexemes(tokens@));
    }
    Ok(tokens)
}

} // verus!
