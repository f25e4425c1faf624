//! The concrete syntax: from source text to tokens, and from tokens to terms
//! and books.
//!
//! ```text
//! book       := definition*
//! definition := name '=' term
//! term       := name
//!             | ('λ' | '@') (name | '*') term
//!             | '(' term term+ ')'
//! name       := [_.a-zA-Z][_.a-zA-Z0-9]*
//! ```
//!
//! White space separates tokens. `//` starts a comment that runs to the end
//! of the line, and `/*` one that runs to the matching `*/`; these nest.
use crate::ast::{binder_of, binder_text, render, Book, Definition, Expr, Name, Term};
use crate::reduce::{closed, refs_in};
use vstd::prelude::*;
use vstd::std_specs::iter::IteratorSpec;
use vstd::string::StringExecFns;

verus! {

/// What can be wrong with a piece of source text that is no token.
#[derive(Debug, Clone, Copy, PartialEq, Eq)]
pub enum LexingError {
    /// A `/*` without its `*/`.
    UnclosedComment,
    /// A character that starts no token.
    InvalidCharacter,
}

impl Default for LexingError {
    fn default() -> (res: Self)
        ensures
            res == LexingError::InvalidCharacter,
    {
        LexingError::InvalidCharacter
    }
}

/// A token of the source text.
#[derive(Debug)]
pub enum Token {
    /// A name.
    Name(String),
    /// `λ` or `@`.
    Lambda,
    /// `*`, the erased binder.
    Asterisk,
    /// `=`.
    Equals,
    /// `(`.
    LParen,
    /// `)`.
    RParen,
    /// A piece of text that is no token.
    Error(LexingError),
}

/// The mathematical model of a [`Token`].
pub enum Lexeme {
    Name(Seq<char>),
    Lambda,
    Asterisk,
    Equals,
    LParen,
    RParen,
    Error(LexingError),
}

impl View for Token {
    type V = Lexeme;

    open spec fn view(&self) -> Lexeme {
        match self {
            Token::Name(n) => Lexeme::Name(n@),
            Token::Lambda => Lexeme::Lambda,
            Token::Asterisk => Lexeme::Asterisk,
            Token::Equals => Lexeme::Equals,
            Token::LParen => Lexeme::LParen,
            Token::RParen => Lexeme::RParen,
            Token::Error(e) => Lexeme::Error(*e),
        }
    }
}

impl Clone for Token {
    fn clone(&self) -> (res: Self)
        ensures
            res == *self,
    {
        match self {
            Token::Name(n) => Token::Name(n.clone()),
            Token::Lambda => Token::Lambda,
            Token::Asterisk => Token::Asterisk,
            Token::Equals => Token::Equals,
            Token::LParen => Token::LParen,
            Token::RParen => Token::RParen,
            Token::Error(e) => Token::Error(*e),
        }
    }
}

/// The models of a sequence of tokens.
pub open spec fn lexemes(tokens: Seq<Token>) -> Seq<Lexeme> {
    tokens.map_values(|t: Token| t@)
}

/// What the scan of a block comment meets at a position.
#[derive(Debug, Clone, Copy, PartialEq, Eq)]
pub enum MultiLineComment {
    /// `/*`: a comment opens inside the comment.
    Open,
    /// `*/`: the innermost open comment closes.
    Close,
    /// Any other character.
    Other,
}

/// Whether a name can start with `c`.
pub open spec fn is_name_start(c: char) -> bool {
    c == '_' || c == '.' || ('a' <= c && c <= 'z') || ('A' <= c && c <= 'Z')
}

/// Whether a name can go on with `c`.
pub open spec fn is_name_char(c: char) -> bool {
    is_name_start(c) || ('0' <= c && c <= '9')
}

/// Whether `c` is white space: a space, a tab, a form feed, a carriage
/// return or a line feed.
pub open spec fn is_space(c: char) -> bool {
    c == ' ' || c == '\t' || c == '\x0c' || c == '\r' || c == '\n'
}

/// The end of the longest run of name characters that starts at `i`.
pub open spec fn name_end(s: Seq<char>, i: int) -> int
    decreases s.len() - i,
{
    if 0 <= i < s.len() && is_name_char(s[i]) {
        name_end(s, i + 1)
    } else {
        i
    }
}

/// The end of the line that `i` is in: the position of the next line feed,
/// or the end of the text.
pub open spec fn line_end(s: Seq<char>, i: int) -> int
    decreases s.len() - i,
{
    if 0 <= i < s.len() && s[i] != '\n' {
        line_end(s, i + 1)
    } else {
        i
    }
}

/// What the scan of a block comment meets at `i`.
pub open spec fn comment_token(s: Seq<char>, i: int) -> MultiLineComment {
    if 0 <= i && i + 1 < s.len() && s[i] == '/' && s[i + 1] == '*' {
        MultiLineComment::Open
    } else if 0 <= i && i + 1 < s.len() && s[i] == '*' && s[i + 1] == '/' {
        MultiLineComment::Close
    } else {
        MultiLineComment::Other
    }
}

/// The position behind the `*/` that closes the outermost of `depth` open
/// comments, scanning from `i`; `None` if the text ends before.
pub open spec fn comment_end(s: Seq<char>, i: int, depth: nat) -> Option<int>
    decreases s.len() - i,
{
    if depth == 0 {
        Some(i)
    } else if i < 0 || i >= s.len() {
        None
    } else {
        match comment_token(s, i) {
            MultiLineComment::Open => comment_end(s, i + 2, depth + 1),
            MultiLineComment::Close => comment_end(s, i + 2, (depth - 1) as nat),
            MultiLineComment::Other => comment_end(s, i + 1, depth),
        }
    }
}

/// What stands at `i`, where `i` is a position in `s`: a token or text to
/// skip, and the position behind it.
///
/// An unclosed block comment gives an error token for its `/*` alone; the
/// text behind it is scanned as usual.
pub open spec fn scan(s: Seq<char>, i: int) -> (Option<Lexeme>, int) {
    let c = s[i];
    if is_space(c) {
        (None, i + 1)
    } else if is_name_start(c) {
        (Some(Lexeme::Name(s.subrange(i, name_end(s, i)))), name_end(s, i))
    } else if c == '@' || c == 'λ' {
        (Some(Lexeme::Lambda), i + 1)
    } else if c == '*' {
        (Some(Lexeme::Asterisk), i + 1)
    } else if c == '=' {
        (Some(Lexeme::Equals), i + 1)
    } else if c == '(' {
        (Some(Lexeme::LParen), i + 1)
    } else if c == ')' {
        (Some(Lexeme::RParen), i + 1)
    } else if c == '/' && i + 1 < s.len() && s[i + 1] == '/' {
        (None, line_end(s, i + 2))
    } else if c == '/' && i + 1 < s.len() && s[i + 1] == '*' {
        match comment_end(s, i + 2, 1) {
            Some(end) => (None, end),
            None => (Some(Lexeme::Error(LexingError::UnclosedComment)), i + 2),
        }
    } else {
        (Some(Lexeme::Error(LexingError::InvalidCharacter)), i + 1)
    }
}

/// The tokens of `s` from position `i` on.
pub open spec fn lex_from(s: Seq<char>, i: int) -> Seq<Lexeme>
    decreases s.len() - i,
{
    if 0 <= i < s.len() {
        let (token, next) = scan(s, i);
        if i < next <= s.len() {
            match token {
                Some(t) => seq![t] + lex_from(s, next),
                None => lex_from(s, next),
            }
        } else {
            Seq::empty()
        }
    } else {
        Seq::empty()
    }
}

/// The tokens of the source text `s`.
pub open spec fn lex(s: Seq<char>) -> Seq<Lexeme> {
    lex_from(s, 0)
}

/// A run of name characters ends at or behind its start, within the text.
pub proof fn lemma_name_end_bounds(s: Seq<char>, i: int)
    requires
        0 <= i <= s.len(),
    ensures
        i <= name_end(s, i) <= s.len(),
        i < s.len() && is_name_char(s[i]) ==> i < name_end(s, i),
        forall|k: int| i <= k < name_end(s, i) ==> is_name_char(#[trigger] s[k]),
    decreases s.len() - i,
{
    if i < s.len() && is_name_char(s[i]) {
        lemma_name_end_bounds(s, i + 1);
    }
}

/// A line ends at or behind any position in it, within the text.
pub proof fn lemma_line_end_bounds(s: Seq<char>, i: int)
    requires
        0 <= i <= s.len(),
    ensures
        i <= line_end(s, i) <= s.len(),
    decreases s.len() - i,
{
    if i < s.len() && s[i] != '\n' {
        lemma_line_end_bounds(s, i + 1);
    }
}

/// A block comment ends at or behind the position it is scanned from, within
/// the text.
pub proof fn lemma_comment_end_bounds(s: Seq<char>, i: int, depth: nat)
    requires
        0 <= i <= s.len(),
    ensures
        comment_end(s, i, depth) matches Some(end) ==> i <= end <= s.len(),
    decreases s.len() - i,
{
    if depth > 0 && i < s.len() {
        match comment_token(s, i) {
            MultiLineComment::Open => lemma_comment_end_bounds(s, i + 2, depth + 1),
            MultiLineComment::Close => lemma_comment_end_bounds(s, i + 2, (depth - 1) as nat),
            MultiLineComment::Other => lemma_comment_end_bounds(s, i + 1, depth),
        }
    }
}

/// Every scan moves on: what stands at a position ends behind it, within
/// the text. So `lex_from` leaves no part of the text out.
pub proof fn lemma_scan_advances(s: Seq<char>, i: int)
    requires
        0 <= i < s.len(),
    ensures
        i < scan(s, i).1 <= s.len(),
{
    lemma_name_end_bounds(s, i);
    if i + 1 < s.len() {
        lemma_line_end_bounds(s, i + 2);
        lemma_comment_end_bounds(s, i + 2, 1);
    }
}

/// Appends `c` to `s`.
///
/// This is `String::push` of the standard library, which is documented to
/// append the given character to the end of the string.
#[verifier::external_body]
fn push_char(s: &mut String, c: char)
    ensures
        final(s)@ == old(s)@.push(c),
{
    s.push(c)
}

/// The characters of `code`, in order.
fn chars_of(code: &str) -> (res: Vec<char>)
    ensures
        res@ == code@,
{
    let mut out: Vec<char> = Vec::new();
    for c in it: code.chars()
        invariant
            it.seq() == code@,
            out@ == it.seq().take(it.index() as int),
    {
        out.push(c);
        assert(it.seq().take(it.index() + 1) =~= it.seq().take(it.index() as int).push(c));
    }
    assert(out@ =~= code@);
    out
}

fn name_start(c: char) -> (res: bool)
    ensures
        res == is_name_start(c),
{
    c == '_' || c == '.' || ('a' <= c && c <= 'z') || ('A' <= c && c <= 'Z')
}

fn name_char(c: char) -> (res: bool)
    ensures
        res == is_name_char(c),
{
    name_start(c) || ('0' <= c && c <= '9')
}

fn space(c: char) -> (res: bool)
    ensures
        res == is_space(c),
{
    c == ' ' || c == '\t' || c == '\x0c' || c == '\r' || c == '\n'
}

/// What the scan of a block comment meets at `i`.
fn comment_token_at(chars: &Vec<char>, i: usize) -> (res: MultiLineComment)
    requires
        i < chars.len(),
    ensures
        res == comment_token(chars@, i as int),
{
    if i + 1 < chars.len() && chars[i] == '/' && chars[i + 1] == '*' {
        MultiLineComment::Open
    } else if i + 1 < chars.len() && chars[i] == '*' && chars[i + 1] == '/' {
        MultiLineComment::Close
    } else {
        MultiLineComment::Other
    }
}

/// Scans a block comment whose `/*` ends at `start`, and returns the position
/// behind its `*/`, or `None` if the comment is not closed. Comments nest.
pub fn comment(chars: &Vec<char>, start: usize) -> (res: Option<usize>)
    requires
        start <= chars.len(),
    ensures
        match comment_end(chars@, start as int, 1) {
            Some(end) => res == Some(end as usize) && start <= end <= chars.len(),
            None => res is None,
        },
{
    let mut depth: usize = 1;
    let mut i: usize = start;
    proof {
        lemma_comment_end_bounds(chars@, start as int, 1);
    }
    while depth > 0
        invariant
            start <= i <= chars.len(),
            2 * (depth - 1) <= i - start,
            comment_end(chars@, start as int, 1) == comment_end(chars@, i as int, depth as nat),
        decreases chars.len() - i,
    {
        if i >= chars.len() {
            return None;
        }
        match comment_token_at(chars, i) {
            MultiLineComment::Open => {
                depth = depth + 1;
                i = i + 2;
            },
            MultiLineComment::Close => {
                depth = depth - 1;
                i = i + 2;
            },
            MultiLineComment::Other => {
                i = i + 1;
            },
        }
    }
    Some(i)
}

/// The tokens of `code`, in order. Text that is no token gives an error
/// token and does not stop the scan.
pub fn token_stream(code: &str) -> (tokens: Vec<Token>)
    ensures
        lexemes(tokens@) == lex(code@),
{
    let chars = chars_of(code);
    let ghost s = chars@;
    let mut tokens: Vec<Token> = Vec::new();
    let mut i: usize = 0;
    assert(lexemes(tokens@) =~= Seq::<Lexeme>::empty());
    while i < chars.len()
        invariant
            i <= chars.len(),
            s == chars@,
            lex(s) == lexemes(tokens@) + lex_from(s, i as int),
        decreases chars.len() - i,
    {
        proof {
            lemma_scan_advances(s, i as int);
            lemma_name_end_bounds(s, i as int);
        }
        let ghost before = lexemes(tokens@);
        let c = chars[i];
        let mut next: usize = i + 1;
        let mut token: Option<Token> = None;
        if space(c) {
        } else if name_start(c) {
            let mut name = String::new();
            push_char(&mut name, c);
            assert(name@ =~= s.subrange(i as int, next as int));
            while next < chars.len() && name_char(chars[next])
                invariant
                    i < next <= chars.len(),
                    s == chars@,
                    name@ == s.subrange(i as int, next as int),
                    name_end(s, i as int) == name_end(s, next as int),
                decreases chars.len() - next,
            {
                push_char(&mut name, chars[next]);
                next = next + 1;
                assert(name@ =~= s.subrange(i as int, next as int));
            }
            token = Some(Token::Name(name));
        } else if c == '@' || c == 'λ' {
            token = Some(Token::Lambda);
        } else if c == '*' {
            token = Some(Token::Asterisk);
        } else if c == '=' {
            token = Some(Token::Equals);
        } else if c == '(' {
            token = Some(Token::LParen);
        } else if c == ')' {
            token = Some(Token::RParen);
        } else if c == '/' && i + 1 < chars.len() && chars[i + 1] == '/' {
            next = i + 2;
            while next < chars.len() && chars[next] != '\n'
                invariant
                    i + 2 <= next <= chars.len(),
                    s == chars@,
                    line_end(s, i + 2) == line_end(s, next as int),
                decreases chars.len() - next,
            {
                next = next + 1;
            }
        } else if c == '/' && i + 1 < chars.len() && chars[i + 1] == '*' {
            match comment(&chars, i + 2) {
                Some(end) => {
                    next = end;
                },
                None => {
                    next = i + 2;
                    token = Some(Token::Error(LexingError::UnclosedComment));
                },
            }
        } else {
            token = Some(Token::Error(LexingError::InvalidCharacter));
        }
        assert(next as int == scan(s, i as int).1);
        assert(match token {
            Some(t) => scan(s, i as int).0 == Some(t@),
            None => scan(s, i as int).0 is None,
        });
        match token {
            Some(t) => {
                tokens.push(t);
                proof {
                    assert(lexemes(tokens@) =~= before.push(t@));
                    assert(before + (seq![t@] + lex_from(s, next as int)) =~= before.push(t@)
                        + lex_from(s, next as int));
                }
            },
            None => {},
        }
        i = next;
    }
    assert(lexemes(tokens@) + Seq::<Lexeme>::empty() =~= lexemes(tokens@));
    tokens
}

/// The binder that the token at `i` stands for, if it stands for one: a
/// name, or `*` for the erased binder.
pub open spec fn binder_at(ts: Seq<Lexeme>, i: int) -> Option<Option<Seq<char>>> {
    if 0 <= i < ts.len() {
        match ts[i] {
            Lexeme::Name(n) => Some(Some(n)),
            Lexeme::Asterisk => Some(None),
            _ => None,
        }
    } else {
        None
    }
}

/// The term that starts at token `i`, with the position behind it; or the
/// position of the first token that cannot go on a term (the length of `ts`
/// where the tokens end too early).
///
/// The tests that a position lies behind the one before it always succeed
/// (`lemma_term_advances`); they are there to show that the definition is
/// well founded.
pub open spec fn term_at(ts: Seq<Lexeme>, i: int) -> Result<(Expr, int), int>
    decreases ts.len() - i, 0int,
{
    if i < 0 || i >= ts.len() {
        Err(i)
    } else {
        match ts[i] {
            Lexeme::Name(n) => Ok((Expr::Var { nam: n }, i + 1)),
            Lexeme::Lambda => match binder_at(ts, i + 1) {
                Some(nam) => match term_at(ts, i + 2) {
                    Ok((bod, next)) => Ok((Expr::Lam { nam, bod: Box::new(bod) }, next)),
                    Err(at) => Err(at),
                },
                None => Err(i + 1),
            },
            Lexeme::LParen => match term_at(ts, i + 1) {
                Ok((fun, j)) => if i < j <= ts.len() {
                    match term_at(ts, j) {
                        Ok((arg, k)) => if j < k <= ts.len() {
                            args_at(ts, k, Expr::App { fun: Box::new(fun), arg: Box::new(arg) })
                        } else {
                            Err(k)
                        },
                        Err(at) => Err(at),
                    }
                } else {
                    Err(j)
                },
                Err(at) => Err(at),
            },
            _ => Err(i),
        }
    }
}

/// The rest of an application from token `i` on, where `acc` is the
/// application of the terms read so far: further arguments, each applied to
/// what came before it, up to the closing parenthesis.
pub open spec fn args_at(ts: Seq<Lexeme>, i: int, acc: Expr) -> Result<(Expr, int), int>
    decreases ts.len() - i, 1int,
{
    if 0 <= i < ts.len() && ts[i] is RParen {
        Ok((acc, i + 1))
    } else {
        match term_at(ts, i) {
            Ok((arg, next)) => if i < next <= ts.len() {
                args_at(ts, next, Expr::App { fun: Box::new(acc), arg: Box::new(arg) })
            } else {
                Err(next)
            },
            Err(at) => Err(at),
        }
    }
}

/// The definition that starts at token `i`: its name and its body, with the
/// position behind it; or the position of the first token that does not fit.
pub open spec fn def_at(ts: Seq<Lexeme>, i: int) -> Result<(Seq<char>, Expr, int), int> {
    if 0 <= i < ts.len() {
        match ts[i] {
            Lexeme::Name(n) => if i + 1 < ts.len() && ts[i + 1] is Equals {
                match term_at(ts, i + 2) {
                    Ok((bod, next)) => Ok((n, bod, next)),
                    Err(at) => Err(at),
                }
            } else {
                Err(i + 1)
            },
            _ => Err(i),
        }
    } else {
        Err(i)
    }
}

/// The definitions from token `i` on, added to `book` in their order, so
/// that a later definition of a name replaces an earlier one.
pub open spec fn defs_at(ts: Seq<Lexeme>, i: int, book: Map<Seq<char>, Expr>) -> Result<
    Map<Seq<char>, Expr>,
    int,
>
    decreases ts.len() - i,
{
    if i < 0 || i >= ts.len() {
        Ok(book)
    } else {
        match def_at(ts, i) {
            Ok((nam, bod, next)) => if i < next <= ts.len() {
                defs_at(ts, next, book.insert(nam, bod))
            } else {
                Err(next)
            },
            Err(at) => Err(at),
        }
    }
}

/// The term that the tokens `ts` spell as a whole, or the position of the
/// first token that does not fit.
pub open spec fn term_of(ts: Seq<Lexeme>) -> Result<Expr, int> {
    match term_at(ts, 0) {
        Ok((t, next)) => if next == ts.len() {
            Ok(t)
        } else {
            Err(next)
        },
        Err(at) => Err(at),
    }
}

/// The book that the tokens `ts` spell as a whole, or the position of the
/// first token that does not fit.
pub open spec fn book_of(ts: Seq<Lexeme>) -> Result<Map<Seq<char>, Expr>, int> {
    defs_at(ts, 0, Map::empty())
}

/// A term ends behind its first token, within the tokens; and a failure is
/// at a position from the start of the term to the end of the tokens.
pub proof fn lemma_term_advances(ts: Seq<Lexeme>, i: int)
    requires
        0 <= i <= ts.len(),
    ensures
        match term_at(ts, i) {
            Ok((t, next)) => i < next <= ts.len(),
            Err(at) => i <= at <= ts.len(),
        },
    decreases ts.len() - i, 0int,
{
    if i < ts.len() {
        match ts[i] {
            Lexeme::Lambda => {
                if binder_at(ts, i + 1) is Some {
                    lemma_term_advances(ts, i + 2);
                }
            },
            Lexeme::LParen => {
                lemma_term_advances(ts, i + 1);
                if let Ok((fun, j)) = term_at(ts, i + 1) {
                    lemma_term_advances(ts, j);
                    if let Ok((arg, k)) = term_at(ts, j) {
                        lemma_args_advance(
                            ts,
                            k,
                            Expr::App { fun: Box::new(fun), arg: Box::new(arg) },
                        );
                    }
                }
            },
            _ => {},
        }
    }
}

/// The rest of an application ends behind where it starts, as a term does.
pub proof fn lemma_args_advance(ts: Seq<Lexeme>, i: int, acc: Expr)
    requires
        0 <= i <= ts.len(),
    ensures
        match args_at(ts, i, acc) {
            Ok((t, next)) => i < next <= ts.len(),
            Err(at) => i <= at <= ts.len(),
        },
    decreases ts.len() - i, 1int,
{
    if i < ts.len() && ts[i] is RParen {
    } else {
        lemma_term_advances(ts, i);
        if let Ok((arg, next)) = term_at(ts, i) {
            lemma_args_advance(ts, next, Expr::App { fun: Box::new(acc), arg: Box::new(arg) });
        }
    }
}

/// The token that spells a binder.
pub open spec fn binder_lexeme(nam: Option<Seq<char>>) -> Lexeme {
    match nam {
        Some(n) => Lexeme::Name(n),
        None => Lexeme::Asterisk,
    }
}

/// The tokens that spell `t`, with one pair of parentheses for each
/// application. A reference is spelled as its name, like a variable.
pub open spec fn spelling(t: Expr) -> Seq<Lexeme>
    decreases t,
{
    match t {
        Expr::Lam { nam, bod } => seq![Lexeme::Lambda, binder_lexeme(nam)] + spelling(*bod),
        Expr::Var { nam } => seq![Lexeme::Name(nam)],
        Expr::App { fun, arg } => seq![Lexeme::LParen] + spelling(*fun) + spelling(*arg)
            + seq![Lexeme::RParen],
        Expr::Ref { nam } => seq![Lexeme::Name(nam)],
    }
}

/// `t` with every reference turned back into the variable of its name: `t` as
/// it was before references were resolved.
pub open spec fn unresolved(t: Expr) -> Expr
    decreases t,
{
    match t {
        Expr::Lam { nam, bod } => Expr::Lam { nam, bod: Box::new(unresolved(*bod)) },
        Expr::Var { nam } => t,
        Expr::App { fun, arg } => Expr::App {
            fun: Box::new(unresolved(*fun)),
            arg: Box::new(unresolved(*arg)),
        },
        Expr::Ref { nam } => Expr::Var { nam },
    }
}

/// Reading inverts spelling: where the tokens from `i` on start with the
/// spelling of `t`, the term read at `i` is `t`, with variables in place of
/// references, and it ends where the spelling ends.
pub proof fn law_spelling_reads_back(t: Expr, ts: Seq<Lexeme>, i: int)
    requires
        0 <= i,
        i + spelling(t).len() <= ts.len(),
        ts.subrange(i, i + spelling(t).len()) == spelling(t),
    ensures
        spelling(t).len() > 0,
        !(spelling(t)[0] is RParen),
        term_at(ts, i) == Ok::<(Expr, int), int>((unresolved(t), i + spelling(t).len())),
    decreases t,
{
    let sp = spelling(t);
    let end = i + sp.len();
    match t {
        Expr::Lam { nam, bod } => {
            assert(ts[i] == sp[0] && ts[i + 1] == sp[1]);
            assert(ts.subrange(i + 2, end) =~= spelling(*bod)) by {
                assert forall|k: int| 0 <= k < spelling(*bod).len() implies ts.subrange(
                    i + 2,
                    end,
                )[k] == spelling(*bod)[k] by {
                    assert(ts[i + 2 + k] == sp[2 + k]);
                }
            }
            law_spelling_reads_back(*bod, ts, i + 2);
        },
        Expr::Var { nam } => {
            assert(ts[i] == sp[0]);
        },
        Expr::App { fun, arg } => {
            let f = spelling(*fun);
            let a = spelling(*arg);
            let j = i + 1 + f.len();
            let k = j + a.len();
            assert(ts[i] == sp[0]);
            assert(ts.subrange(i + 1, j) =~= f) by {
                assert forall|n: int| 0 <= n < f.len() implies ts.subrange(i + 1, j)[n] == f[n] by {
                    assert(ts[i + 1 + n] == sp[1 + n]);
                }
            }
            assert(ts.subrange(j, k) =~= a) by {
                assert forall|n: int| 0 <= n < a.len() implies ts.subrange(j, k)[n] == a[n] by {
                    assert(ts[j + n] == sp[j - i + n]);
                }
            }
            assert(ts[k] == sp[k - i]);
            law_spelling_reads_back(*fun, ts, i + 1);
            law_spelling_reads_back(*arg, ts, j);
            assert(ts[k] is RParen);
            let app = Expr::App { fun: Box::new(unresolved(*fun)), arg: Box::new(unresolved(*arg)) };
            assert(args_at(ts, k, app) == Ok::<(Expr, int), int>((app, k + 1)));
        },
        Expr::Ref { nam } => {
            assert(ts[i] == sp[0]);
        },
    }
}

/// The spelling of a term reads back as that term, with variables in place of
/// references.
pub proof fn law_term_of_spelling(t: Expr)
    ensures
        term_of(spelling(t)) == Ok::<Expr, int>(unresolved(t)),
{
    let sp = spelling(t);
    assert(sp.subrange(0, sp.len() as int) =~= sp);
    law_spelling_reads_back(t, sp, 0);
}

/// A term that is read holds no reference: reading gives variables, and
/// only resolution turns them into references.
pub proof fn lemma_read_term_holds_no_ref(ts: Seq<Lexeme>, i: int, names: Set<Seq<char>>)
    ensures
        term_at(ts, i) matches Ok((t, next)) ==> refs_in(t, names),
    decreases ts.len() - i, 0int,
{
    if 0 <= i < ts.len() {
        match ts[i] {
            Lexeme::Lambda => {
                if binder_at(ts, i + 1) is Some {
                    lemma_read_term_holds_no_ref(ts, i + 2, names);
                }
            },
            Lexeme::LParen => {
                lemma_read_term_holds_no_ref(ts, i + 1, names);
                if let Ok((fun, j)) = term_at(ts, i + 1) {
                    if i < j <= ts.len() {
                        lemma_read_term_holds_no_ref(ts, j, names);
                        if let Ok((arg, k)) = term_at(ts, j) {
                            if j < k <= ts.len() {
                                lemma_read_args_hold_no_ref(
                                    ts,
                                    k,
                                    Expr::App { fun: Box::new(fun), arg: Box::new(arg) },
                                    names,
                                );
                            }
                        }
                    }
                }
            },
            _ => {},
        }
    }
}

/// The rest of an application that is read brings in no reference.
pub proof fn lemma_read_args_hold_no_ref(
    ts: Seq<Lexeme>,
    i: int,
    acc: Expr,
    names: Set<Seq<char>>,
)
    requires
        refs_in(acc, names),
    ensures
        args_at(ts, i, acc) matches Ok((t, next)) ==> refs_in(t, names),
    decreases ts.len() - i, 1int,
{
    if 0 <= i < ts.len() && ts[i] is RParen {
    } else {
        lemma_read_term_holds_no_ref(ts, i, names);
        if let Ok((arg, next)) = term_at(ts, i) {
            if i < next <= ts.len() {
                lemma_read_args_hold_no_ref(
                    ts,
                    next,
                    Expr::App { fun: Box::new(acc), arg: Box::new(arg) },
                    names,
                );
            }
        }
    }
}

/// Whether no body of `book` holds a reference.
pub open spec fn holds_no_ref(book: Map<Seq<char>, Expr>) -> bool {
    forall|n: Seq<char>| book.contains_key(n) ==> refs_in(#[trigger] book[n], Set::empty())
}

/// Definitions that are read add no reference to a book.
pub proof fn lemma_read_defs_hold_no_ref(ts: Seq<Lexeme>, i: int, book: Map<Seq<char>, Expr>)
    requires
        holds_no_ref(book),
    ensures
        defs_at(ts, i, book) matches Ok(b) ==> holds_no_ref(b),
    decreases ts.len() - i,
{
    if 0 <= i < ts.len() {
        if let Ok((nam, bod, next)) = def_at(ts, i) {
            if i < next <= ts.len() {
                lemma_read_term_holds_no_ref(ts, i + 2, Set::empty());
                lemma_read_defs_hold_no_ref(ts, next, book.insert(nam, bod));
            }
        }
    }
}

/// A term without references has all its references among any names.
pub proof fn lemma_no_ref_is_in_any(t: Expr, names: Set<Seq<char>>)
    requires
        refs_in(t, Set::empty()),
    ensures
        refs_in(t, names),
    decreases t,
{
    match t {
        Expr::Lam { nam, bod } => lemma_no_ref_is_in_any(*bod, names),
        Expr::Var { nam } => {},
        Expr::App { fun, arg } => {
            lemma_no_ref_is_in_any(*fun, names);
            lemma_no_ref_is_in_any(*arg, names);
        },
        Expr::Ref { nam } => {},
    }
}

/// A book that is read is closed: it holds no reference at all.
pub proof fn law_read_book_is_closed(ts: Seq<Lexeme>)
    ensures
        book_of(ts) matches Ok(b) ==> holds_no_ref(b) && closed(b),
{
    lemma_read_defs_hold_no_ref(ts, 0, Map::empty());
    if let Ok(b) = book_of(ts) {
        assert forall|n: Seq<char>| b.contains_key(n) implies refs_in(#[trigger] b[n], b.dom()) by {
            lemma_no_ref_is_in_any(b[n], b.dom());
        }
    }
}

/// Whether `n` is spelled as a name: it is not empty, starts as a name
/// starts and goes on as a name goes on.
pub open spec fn is_name(n: Seq<char>) -> bool {
    &&& n.len() > 0
    &&& is_name_start(n[0])
    &&& forall|k: int| 0 <= k < n.len() ==> is_name_char(#[trigger] n[k])
}

/// Whether every name in `t` is spelled as a name.
pub open spec fn well_named(t: Expr) -> bool
    decreases t,
{
    match t {
        Expr::Lam { nam, bod } => (nam matches Some(n) ==> is_name(n)) && well_named(*bod),
        Expr::Var { nam } => is_name(nam),
        Expr::App { fun, arg } => well_named(*fun) && well_named(*arg),
        Expr::Ref { nam } => is_name(nam),
    }
}

/// Whether the text `r` stands in `s` at position `i`.
pub open spec fn stands_at(s: Seq<char>, i: int, r: Seq<char>) -> bool {
    &&& 0 <= i
    &&& i + r.len() <= s.len()
    &&& forall|k: int| 0 <= k < r.len() ==> s[i + k] == #[trigger] r[k]
}

/// Whether a name that ends before position `j` of `s` cannot go on at `j`.
pub open spec fn name_stops_at(s: Seq<char>, j: int) -> bool {
    j == s.len() || (0 <= j < s.len() && !is_name_char(s[j]))
}

/// A run of name characters from `i` up to `j`, which cannot go on at `j`,
/// ends at `j`.
proof fn lemma_name_end_of_run(s: Seq<char>, i: int, j: int)
    requires
        0 <= i <= j <= s.len(),
        forall|k: int| i <= k < j ==> is_name_char(#[trigger] s[k]),
        name_stops_at(s, j),
    ensures
        name_end(s, i) == j,
    decreases j - i,
{
    if i < j {
        assert(is_name_char(s[i]));
        lemma_name_end_of_run(s, i + 1, j);
    }
}

/// A name that stands in the text and cannot go on behind its end is read as
/// one token.
proof fn lemma_lex_name(s: Seq<char>, i: int, n: Seq<char>)
    requires
        is_name(n),
        stands_at(s, i, n),
        name_stops_at(s, i + n.len()),
    ensures
        lex_from(s, i) == seq![Lexeme::Name(n)] + lex_from(s, i + n.len()),
{
    let j = i + n.len();
    assert forall|k: int| i <= k < j implies is_name_char(#[trigger] s[k]) by {
        assert(s[i + (k - i)] == n[k - i]);
    }
    lemma_name_end_of_run(s, i, j);
    assert(s[i + 0] == n[0]);
    assert(s.subrange(i, j) =~= n) by {
        assert forall|k: int| 0 <= k < n.len() implies s.subrange(i, j)[k] == n[k] by {
            assert(s[i + k] == n[k]);
        }
    }
}

/// The text of a binder is read as the token of that binder, where a space
/// follows it.
proof fn lemma_lex_binder(s: Seq<char>, i: int, nam: Option<Seq<char>>)
    requires
        nam matches Some(n) ==> is_name(n),
        stands_at(s, i, binder_text(nam)),
        i + binder_text(nam).len() < s.len(),
        s[i + binder_text(nam).len()] == ' ',
    ensures
        lex_from(s, i) == seq![binder_lexeme(nam)] + lex_from(s, i + binder_text(nam).len() + 1),
{
    let b = binder_text(nam);
    let j = i + b.len();
    assert(lex_from(s, j) == lex_from(s, j + 1));
    match nam {
        Some(n) => {
            lemma_lex_name(s, i, n);
        },
        None => {
            assert(s[i + 0] == b[0]);
        },
    }
}

/// The source text of a term is read as the spelling of the term: where the
/// text of `t` stands at `i` and a name at its end cannot go on, the tokens
/// from `i` on are the spelling of `t`, and then the tokens from the end of
/// the text of `t` on.
pub proof fn lemma_lex_render(t: Expr, s: Seq<char>, i: int)
    requires
        well_named(t),
        stands_at(s, i, render(t)),
        name_stops_at(s, i + render(t).len()),
    ensures
        lex_from(s, i) == spelling(t) + lex_from(s, i + render(t).len()),
    decreases t,
{
    let r = render(t);
    let end = i + r.len();
    match t {
        Expr::Lam { nam, bod } => {
            let b = binder_text(nam);
            let body = render(*bod);
            assert(r =~= seq!['λ'] + b + seq![' '] + body);
            assert(r.len() == 2 + b.len() + body.len());
            assert(s[i + 0] == r[0] && r[0] == 'λ');
            assert(lex_from(s, i) == seq![Lexeme::Lambda] + lex_from(s, i + 1));
            assert(stands_at(s, i + 1, b)) by {
                assert forall|k: int| 0 <= k < b.len() implies s[i + 1 + k] == #[trigger] b[k] by {
                    assert(s[i + (1 + k)] == r[1 + k]);
                }
            }
            let bl = b.len() as int;
            assert(s[i + (1 + bl)] == r[1 + bl] && r[1 + bl] == ' ');
            lemma_lex_binder(s, i + 1, nam);
            let at = i + 2 + b.len();
            assert(stands_at(s, at, body)) by {
                assert forall|k: int| 0 <= k < body.len() implies s[at + k] == #[trigger] body[k] by {
                    assert(s[i + (2 + b.len() + k)] == r[2 + b.len() + k]);
                }
            }
            lemma_lex_render(*bod, s, at);
            assert(lex_from(s, i) =~= spelling(t) + lex_from(s, end));
        },
        Expr::Var { nam } => {
            lemma_lex_name(s, i, nam);
        },
        Expr::App { fun, arg } => {
            let f = render(*fun);
            let a = render(*arg);
            assert(r =~= seq!['('] + f + seq![' '] + a + seq![')']);
            assert(r.len() == 3 + f.len() + a.len());
            assert(s[i + 0] == r[0] && r[0] == '(');
            assert(lex_from(s, i) == seq![Lexeme::LParen] + lex_from(s, i + 1));
            assert(stands_at(s, i + 1, f)) by {
                assert forall|k: int| 0 <= k < f.len() implies s[i + 1 + k] == #[trigger] f[k] by {
                    assert(s[i + (1 + k)] == r[1 + k]);
                }
            }
            let sep = i + 1 + f.len();
            let fl = f.len() as int;
            let al = a.len() as int;
            assert(s[i + (1 + fl)] == r[1 + fl] && r[1 + fl] == ' ');
            lemma_lex_render(*fun, s, i + 1);
            assert(lex_from(s, sep) == lex_from(s, sep + 1));
            assert(stands_at(s, sep + 1, a)) by {
                assert forall|k: int| 0 <= k < a.len() implies s[sep + 1 + k] == #[trigger] a[k] by {
                    assert(s[i + (2 + f.len() + k)] == r[2 + f.len() + k]);
                }
            }
            let close = sep + 1 + a.len();
            assert(s[i + (2 + fl + al)] == r[2 + fl + al] && r[2 + fl + al] == ')');
            lemma_lex_render(*arg, s, sep + 1);
            assert(lex_from(s, close) == seq![Lexeme::RParen] + lex_from(s, close + 1));
            assert(lex_from(s, i) =~= spelling(t) + lex_from(s, end));
        },
        Expr::Ref { nam } => {
            lemma_lex_name(s, i, nam);
        },
    }
}

/// What is printed reads back: the source text of a term whose names are
/// spelled as names is read as that term, with variables in place of
/// references.
pub proof fn law_printed_term_reads_back(t: Expr)
    requires
        well_named(t),
    ensures
        lex(render(t)) == spelling(t),
        term_of(lex(render(t))) == Ok::<Expr, int>(unresolved(t)),
{
    let s = render(t);
    lemma_lex_render(t, s, 0);
    assert(lex_from(s, s.len() as int) =~= Seq::<Lexeme>::empty());
    assert(spelling(t) + Seq::<Lexeme>::empty() =~= spelling(t));
    law_term_of_spelling(t);
}

/// Why a piece of source text is no term or no book: the token that does not
/// fit, and its position among the tokens.
#[derive(Debug)]
pub struct ParseError {
    /// The position of the token, counted from 0; the number of tokens where
    /// the text ends too early.
    pub at: usize,
    /// The token, or `None` where the text ends too early.
    pub found: Option<Token>,
}

/// The mathematical model of a [`ParseError`].
pub struct Failure {
    pub at: int,
    pub found: Option<Lexeme>,
}

impl View for ParseError {
    type V = Failure;

    open spec fn view(&self) -> Failure {
        Failure {
            at: self.at as int,
            found: match self.found {
                Some(t) => Some(t@),
                None => None,
            },
        }
    }
}

/// The failure at position `at` of the tokens `ts`.
pub open spec fn failure_at(ts: Seq<Lexeme>, at: int) -> Failure {
    Failure {
        at,
        found: if 0 <= at < ts.len() {
            Some(ts[at])
        } else {
            None
        },
    }
}

/// The text of a token in messages.
pub open spec fn token_text(t: Lexeme) -> Seq<char> {
    match t {
        Lexeme::Name(n) => n,
        Lexeme::Lambda => "λ"@,
        Lexeme::Asterisk => "*"@,
        Lexeme::Equals => "="@,
        Lexeme::LParen => "("@,
        Lexeme::RParen => ")"@,
        Lexeme::Error(LexingError::InvalidCharacter) => "<InvalidCharacter>"@,
        Lexeme::Error(LexingError::UnclosedComment) => "<UnclosedComment>"@,
    }
}

/// The message of a failure: what was found where it does not fit.
pub open spec fn failure_message(f: Failure) -> Seq<char> {
    match f.found {
        Some(t) => "found '"@ + token_text(t) + "'"@,
        None => "found end of input"@,
    }
}

impl Token {
    /// The text of this token in messages.
    pub fn to_string(&self) -> (res: String)
        ensures
            res@ == token_text(self@),
    {
        match self {
            Token::Name(n) => n.clone(),
            Token::Lambda => String::from_str("λ"),
            Token::Asterisk => String::from_str("*"),
            Token::Equals => String::from_str("="),
            Token::LParen => String::from_str("("),
            Token::RParen => String::from_str(")"),
            Token::Error(LexingError::InvalidCharacter) => String::from_str("<InvalidCharacter>"),
            Token::Error(LexingError::UnclosedComment) => String::from_str("<UnclosedComment>"),
        }
    }
}

impl ParseError {
    /// The message of this error.
    pub fn to_string(&self) -> (res: String)
        ensures
            res@ == failure_message(self@),
    {
        match &self.found {
            Some(t) => {
                let mut msg = String::from_str("found '");
                let text = t.to_string();
                msg.append(text.as_str());
                msg.append("'");
                msg
            },
            None => String::from_str("found end of input"),
        }
    }
}

/// The error for the token at `at`.
fn unexpected(tokens: &Vec<Token>, at: usize) -> (res: ParseError)
    requires
        at <= tokens.len(),
    ensures
        res@ == failure_at(lexemes(tokens@), at as int),
{
    if at < tokens.len() {
        ParseError { at, found: Some(tokens[at].clone()) }
    } else {
        ParseError { at, found: None }
    }
}

/// Reads a name at token `i`.
fn name(tokens: &Vec<Token>, i: usize) -> (res: Option<Name>)
    requires
        i <= tokens.len(),
    ensures
        match res {
            Some(n) => i < tokens.len() && lexemes(tokens@)[i as int] == Lexeme::Name(n@),
            None => !(i < tokens.len() && lexemes(tokens@)[i as int] is Name),
        },
{
    if i < tokens.len() {
        match &tokens[i] {
            Token::Name(n) => Some(n.clone()),
            _ => None,
        }
    } else {
        None
    }
}

/// Reads a binder at token `i`: a name, or `*` for the erased binder.
fn name_or_era(tokens: &Vec<Token>, i: usize) -> (res: Option<Option<Name>>)
    requires
        i <= tokens.len(),
    ensures
        match res {
            Some(b) => binder_at(lexemes(tokens@), i as int) == Some(binder_of(b)),
            None => binder_at(lexemes(tokens@), i as int) is None,
        },
{
    if i < tokens.len() {
        match &tokens[i] {
            Token::Name(n) => Some(Some(n.clone())),
            Token::Asterisk => Some(None),
            _ => None,
        }
    } else {
        None
    }
}

/// Whether token `i` is a closing parenthesis.
fn closes(tokens: &Vec<Token>, i: usize) -> (res: bool)
    requires
        i <= tokens.len(),
    ensures
        res == (i < tokens.len() && lexemes(tokens@)[i as int] is RParen),
{
    if i < tokens.len() {
        match &tokens[i] {
            Token::RParen => true,
            _ => false,
        }
    } else {
        false
    }
}

/// Reads a term at token `i`, and returns it with the position behind it.
pub fn term(tokens: &Vec<Token>, i: usize) -> (res: Result<(Term, usize), ParseError>)
    requires
        i <= tokens.len(),
    ensures
        match term_at(lexemes(tokens@), i as int) {
            Ok((t, next)) => res matches Ok((term, pos)) && term@ == t && pos == next && i < pos
                <= tokens.len(),
            Err(at) => res matches Err(e) && e@ == failure_at(lexemes(tokens@), at),
        },
    decreases tokens.len() - i,
{
    let ghost ts = lexemes(tokens@);
    proof {
        lemma_term_advances(ts, i as int);
    }
    if i >= tokens.len() {
        return Err(unexpected(tokens, i));
    }
    match &tokens[i] {
        Token::Name(n) => Ok((Term::Var { nam: n.clone() }, i + 1)),
        Token::Lambda => {
            match name_or_era(tokens, i + 1) {
                Some(nam) => {
                    match term(tokens, i + 2) {
                        Ok((bod, next)) => Ok((Term::Lam { nam, bod: Box::new(bod) }, next)),
                        Err(e) => Err(e),
                    }
                },
                None => Err(unexpected(tokens, i + 1)),
            }
        },
        Token::LParen => {
            let (fun, j) = match term(tokens, i + 1) {
                Ok(r) => r,
                Err(e) => {
                    return Err(e);
                },
            };
            let (arg, k) = match term(tokens, j) {
                Ok(r) => r,
                Err(e) => {
                    return Err(e);
                },
            };
            let mut acc = Term::App { fun: Box::new(fun), arg: Box::new(arg) };
            let mut pos = k;
            loop
                invariant
                    i < pos <= tokens.len(),
                    ts == lexemes(tokens@),
                    term_at(ts, i as int) == args_at(ts, pos as int, acc@),
                decreases tokens.len() - pos,
            {
                proof {
                    lemma_args_advance(ts, pos as int, acc@);
                    lemma_term_advances(ts, pos as int);
                }
                if closes(tokens, pos) {
                    return Ok((acc, pos + 1));
                }
                match term(tokens, pos) {
                    Ok((arg, next)) => {
                        acc = Term::App { fun: Box::new(acc), arg: Box::new(arg) };
                        pos = next;
                    },
                    Err(e) => {
                        return Err(e);
                    },
                }
            }
        },
        _ => Err(unexpected(tokens, i)),
    }
}

/// Reads a definition at token `i`: a name, `=` and a term. Returns it with
/// the position behind it.
pub fn definition(tokens: &Vec<Token>, i: usize) -> (res: Result<(Definition, usize), ParseError>)
    requires
        i <= tokens.len(),
    ensures
        match def_at(lexemes(tokens@), i as int) {
            Ok((nam, bod, next)) => res matches Ok((def, pos)) && def.nam@ == nam && def.bod@ == bod
                && pos == next && i < pos <= tokens.len(),
            Err(at) => res matches Err(e) && e@ == failure_at(lexemes(tokens@), at),
        },
{
    let nam = match name(tokens, i) {
        Some(n) => n,
        None => {
            return Err(unexpected(tokens, i));
        },
    };
    let is_equals = i + 1 < tokens.len() && match &tokens[i + 1] {
        Token::Equals => true,
        _ => false,
    };
    if !is_equals {
        return Err(unexpected(tokens, i + 1));
    }
    match term(tokens, i + 2) {
        Ok((bod, pos)) => Ok((Definition { nam, bod }, pos)),
        Err(e) => Err(e),
    }
}

/// Reads the definitions that the tokens spell, up to their end, into a book.
pub fn book(tokens: &Vec<Token>) -> (res: Result<Book, ParseError>)
    ensures
        match book_of(lexemes(tokens@)) {
            Ok(b) => res matches Ok(book) && book@ == b,
            Err(at) => res matches Err(e) && e@ == failure_at(lexemes(tokens@), at),
        },
{
    let ghost ts = lexemes(tokens@);
    let mut book = Book::new();
    let mut i: usize = 0;
    while i < tokens.len()
        invariant
            i <= tokens.len(),
            ts == lexemes(tokens@),
            book_of(ts) == defs_at(ts, i as int, book@),
        decreases tokens.len() - i,
    {
        match definition(tokens, i) {
            Ok((def, pos)) => {
                book.insert(def);
                i = pos;
            },
            Err(e) => {
                return Err(e);
            },
        }
    }
    Ok(book)
}

/// Reads `code` as one term.
pub fn parse_term(code: &str) -> (res: Result<Term, ParseError>)
    ensures
        match term_of(lex(code@)) {
            Ok(t) => res matches Ok(term) && term@ == t,
            Err(at) => res matches Err(e) && e@ == failure_at(lex(code@), at),
        },
{
    let tokens = token_stream(code);
    match term(&tokens, 0) {
        Ok((t, pos)) => {
            if pos == tokens.len() {
                Ok(t)
            } else {
                Err(unexpected(&tokens, pos))
            }
        },
        Err(e) => Err(e),
    }
}

/// Reads `code` as a book: any number of definitions.
pub fn parse_book(code: &str) -> (res: Result<Book, ParseError>)
    ensures
        match book_of(lex(code@)) {
            Ok(b) => res matches Ok(book) && book@ == b,
            Err(at) => res matches Err(e) && e@ == failure_at(lex(code@), at),
        },
{
    let tokens = token_stream(code);
    book(&tokens)
}

} // verus!
