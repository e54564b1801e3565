use vstd::prelude::*;
use vstd::string::*;

use crate::error::{ErrorKind, ErrorModel, LangError};
use crate::token::{Lexeme, Operator, Token, TokenType, TokenView};

verus! {

/// Whether `c` has the Unicode Alphabetic property (named result of `char::is_alphabetic`).
pub uninterp spec fn alphabetic(c: char) -> bool;

/// Relies on `char::is_alphabetic`: whether the character has the Unicode
/// Alphabetic property, which depends on the character alone.
#[verifier::external_body]
fn is_alphabetic(c: char) -> (r: bool)
    ensures
        r == alphabetic(c),
{
    c.is_alphabetic()
}

pub open spec fn is_digit(c: char) -> bool {
    '0' <= c && c <= '9'
}

pub open spec fn is_space(c: char) -> bool {
    c == '\n' || c == '\t' || c == ' ' || c == '\r'
}

/// The operator that a character stands for, if any.
pub open spec fn char_operator(c: char) -> Option<Operator> {
    if c == '+' {
        Some(Operator::Plus)
    } else if c == '-' {
        Some(Operator::Minus)
    } else if c == '*' {
        Some(Operator::Mul)
    } else {
        None
    }
}

/// Digits, whitespace and operator characters: none of them is a letter.
pub open spec fn is_reserved(c: char) -> bool {
    is_digit(c) || is_space(c) || char_operator(c) is Some
}

/// A character that starts a word.
pub open spec fn starts_word(c: char) -> bool {
    c == '_' || c == '$' || (!is_reserved(c) && alphabetic(c))
}

/// A character that continues a word.
pub open spec fn in_word(c: char) -> bool {
    is_digit(c) || c == '_' || (!is_reserved(c) && alphabetic(c))
}

pub open spec fn digit_value(c: char) -> int {
    (c as u32) as int - ('0' as u32) as int
}

/// The value of a string of decimal digits.
pub open spec fn digits_value(s: Seq<char>) -> int
    decreases s.len(),
{
    if s.len() == 0 {
        0
    } else {
        digits_value(s.drop_last()) * 10 + digit_value(s.last())
    }
}

/// The end of the run of digits that starts at `i`.
pub open spec fn digit_end(s: Seq<char>, i: int) -> int
    decreases s.len() - i,
{
    if 0 <= i < s.len() && is_digit(s[i]) {
        digit_end(s, i + 1)
    } else {
        i
    }
}

/// The end of the run of word characters that starts at `i`.
pub open spec fn word_end(s: Seq<char>, i: int) -> int
    decreases s.len() - i,
{
    if 0 <= i < s.len() && in_word(s[i]) {
        word_end(s, i + 1)
    } else {
        i
    }
}

pub open spec fn prepend<T, E>(x: T, r: Result<Seq<T>, E>) -> Result<Seq<T>, E> {
    match r {
        Ok(xs) => Ok(seq![x] + xs),
        Err(e) => Err(e),
    }
}

pub open spec fn prepend_all<T, E>(p: Seq<T>, r: Result<Seq<T>, E>) -> Result<Seq<T>, E> {
    match r {
        Ok(xs) => Ok(p + xs),
        Err(e) => Err(e),
    }
}

/// The tokens of `s` from index `i` on, the cursor standing at `line` and `col`.
pub open spec fn lex_from(s: Seq<char>, i: int, line: int, col: int) -> Result<
    Seq<TokenView>,
    ErrorModel,
>
    decreases s.len() - i,
    via lex_from_decreases
{
    if i < 0 || i >= s.len() {
        Ok(seq![])
    } else {
        let c = s[i];
        if is_digit(c) {
            let j = digit_end(s, i);
            let v = digits_value(s.subrange(i, j));
            if v > i32::MAX {
                Err(
                    ErrorModel {
                        kind: ErrorKind::NumericOverflow,
                        line,
                        col,
                        found: s.subrange(i, j),
                    },
                )
            } else {
                prepend(
                    TokenView { kind: Lexeme::Number(v), line, col },
                    lex_from(s, j, line, col + (j - i)),
                )
            }
        } else if starts_word(c) {
            let j = word_end(s, i + 1);
            prepend(
                TokenView { kind: Lexeme::Word(s.subrange(i, j)), line, col },
                lex_from(s, j, line, col + (j - i)),
            )
        } else if char_operator(c) is Some {
            prepend(
                TokenView { kind: Lexeme::Operator(char_operator(c)->0), line, col },
                lex_from(s, i + 1, line, col + 1),
            )
        } else if c == '\n' {
            lex_from(s, i + 1, line + 1, 0)
        } else if is_space(c) {
            lex_from(s, i + 1, line, col + 1)
        } else {
            Err(ErrorModel { kind: ErrorKind::UnknownToken, line, col, found: seq![c] })
        }
    }
}

pub(crate) proof fn lemma_digit_end(s: Seq<char>, i: int)
    requires
        0 <= i <= s.len(),
    ensures
        i <= digit_end(s, i) <= s.len(),
        forall|k: int| i <= k < digit_end(s, i) ==> is_digit(#[trigger] s[k]),
        digit_end(s, i) < s.len() ==> !is_digit(s[digit_end(s, i)]),
    decreases s.len() - i,
{
    if i < s.len() && is_digit(s[i]) {
        lemma_digit_end(s, i + 1);
    }
}

pub(crate) proof fn lemma_word_end(s: Seq<char>, i: int)
    requires
        0 <= i <= s.len(),
    ensures
        i <= word_end(s, i) <= s.len(),
        forall|k: int| i <= k < word_end(s, i) ==> in_word(#[trigger] s[k]),
        word_end(s, i) < s.len() ==> !in_word(s[word_end(s, i)]),
    decreases s.len() - i,
{
    if i < s.len() && in_word(s[i]) {
        lemma_word_end(s, i + 1);
    }
}

#[via_fn]
proof fn lex_from_decreases(s: Seq<char>, i: int, line: int, col: int) {
    if 0 <= i < s.len() {
        lemma_digit_end(s, i);
        lemma_word_end(s, i + 1);
    }
}

/// The end of the run of whitespace that starts at `i`.
pub open spec fn space_end(s: Seq<char>, i: int) -> int
    decreases s.len() - i,
{
    if 0 <= i < s.len() && is_space(s[i]) {
        space_end(s, i + 1)
    } else {
        i
    }
}

/// The line and column reached after reading `r` from `line` and `col`: a
/// newline starts the next line at column 0, any other character moves one column.
pub open spec fn advance(r: Seq<char>, line: int, col: int) -> (int, int)
    decreases r.len(),
{
    if r.len() == 0 {
        (line, col)
    } else {
        let (l, c) = advance(r.drop_last(), line, col);
        if r.last() == '\n' {
            (l + 1, 0)
        } else {
            (l, c + 1)
        }
    }
}

pub(crate) proof fn lemma_space_end(s: Seq<char>, i: int)
    requires
        0 <= i <= s.len(),
    ensures
        i <= space_end(s, i) <= s.len(),
    decreases s.len() - i,
{
    if i < s.len() && is_space(s[i]) {
        lemma_space_end(s, i + 1);
    }
}

/// The tokens of a whole source text.
pub open spec fn lexed(s: Seq<char>) -> Result<Seq<TokenView>, ErrorModel> {
    lex_from(s, 0, 1, 0)
}

pub open spec fn token_views(ts: Seq<Token>) -> Seq<TokenView> {
    ts.map_values(|t: Token| t@)
}

fn is_digit_char(c: char) -> (r: bool)
    ensures
        r == is_digit(c),
{
    '0' <= c && c <= '9'
}

fn is_space_char(c: char) -> (r: bool)
    ensures
        r == is_space(c),
{
    c == '\n' || c == '\t' || c == ' ' || c == '\r'
}

fn lookup_operator(c: char) -> (r: Option<Operator>)
    ensures
        r == char_operator(c),
{
    if c == '+' {
        Some(Operator::Plus)
    } else if c == '-' {
        Some(Operator::Minus)
    } else if c == '*' {
        Some(Operator::Mul)
    } else {
        None
    }
}

fn is_reserved_char(c: char) -> (r: bool)
    ensures
        r == is_reserved(c),
{
    is_digit_char(c) || is_space_char(c) || lookup_operator(c).is_some()
}

fn is_word_start(c: char) -> (r: bool)
    ensures
        r == starts_word(c),
{
    c == '_' || c == '$' || (!is_reserved_char(c) && is_alphabetic(c))
}

fn is_word_char(c: char) -> (r: bool)
    ensures
        r == in_word(c),
{
    is_digit_char(c) || c == '_' || (!is_reserved_char(c) && is_alphabetic(c))
}


pub(crate) proof fn lemma_digits_nonneg(t: Seq<char>)
    requires
        forall|k: int| 0 <= k < t.len() ==> is_digit(#[trigger] t[k]),
    ensures
        digits_value(t) >= 0,
    decreases t.len(),
{
    if t.len() > 0 {
        lemma_digits_nonneg(t.drop_last());
    }
}

/// A longer run of digits has no smaller value.
proof fn lemma_digits_grow(s: Seq<char>, a: int, k: int, m: int)
    requires
        0 <= a <= k <= m <= s.len(),
        forall|x: int| a <= x < m ==> is_digit(#[trigger] s[x]),
    ensures
        digits_value(s.subrange(a, m)) >= digits_value(s.subrange(a, k)),
    decreases m - k,
{
    if k < m {
        lemma_digits_grow(s, a, k, m - 1);
        assert(s.subrange(a, m).drop_last() =~= s.subrange(a, m - 1));
        lemma_digits_nonneg(s.subrange(a, m - 1));
    }
}

proof fn lemma_pending_push(p: Seq<TokenView>, t: TokenView, r: Result<Seq<TokenView>, ErrorModel>)
    ensures
        prepend_all(p, prepend(t, r)) == prepend_all(p.push(t), r),
{
    match r {
        Ok(xs) => {
            assert(p + (seq![t] + xs) =~= p.push(t) + xs);
        },
        Err(_) => {},
    }
}

/// The lexer's cursor: the tokens found so far and the position reached.
pub struct Lexer {
    pub tokens: Vec<Token>,
    pub line: usize,
    pub expos: usize,
    pub col: usize,
}

impl Lexer {
    /// The cursor is inside the text and the counters stay below its length.
    pub open spec fn well_formed(&self, s: Seq<char>) -> bool {
        &&& s.len() < usize::MAX
        &&& self.expos <= s.len()
        &&& self.line <= self.expos + 1
        &&& self.col <= self.expos
    }

    /// What lexing the whole text comes to, from the tokens found so far and what remains.
    pub open spec fn pending(&self, s: Seq<char>) -> Result<Seq<TokenView>, ErrorModel> {
        prepend_all(token_views(self.tokens@), lex_from(s, self.expos as int, self.line as int, self.col as int))
    }

    pub fn new() -> (r: Self)
        ensures
            r.tokens@.len() == 0,
            r.line == 1,
            r.expos == 0,
            r.col == 0,
    {
        Lexer { tokens: Vec::new(), line: 1, expos: 0, col: 0 }
    }

    /// Appends a token of the given kind at the current line and column.
    pub fn add_token(&mut self, token_type: TokenType)
        ensures
            final(self).tokens@ == old(self).tokens@.push(
                Token { token_type, line: old(self).line, col: old(self).col },
            ),
            final(self).line == old(self).line,
            final(self).expos == old(self).expos,
            final(self).col == old(self).col,
    {
        let token = Token { token_type, line: self.line, col: self.col };
        self.tokens.push(token);
    }

    /// Reads the run of digits at the cursor as one `Number` token.
    fn number_reader(&mut self, content: &str, n: usize) -> (r: Result<(), LangError>)
        requires
            old(self).well_formed(content@),
            n == content@.len(),
            old(self).expos < n,
            is_digit(content@[old(self).expos as int]),
        ensures
            ({
                let s = content@;
                let start = old(self).expos as int;
                let run = s.subrange(start, digit_end(s, start));
                match r {
                    Ok(()) => {
                        &&& digits_value(run) <= i32::MAX
                        &&& final(self).tokens@ == old(self).tokens@.push(
                            Token {
                                token_type: TokenType::Number(digits_value(run) as i32),
                                line: old(self).line,
                                col: old(self).col,
                            },
                        )
                        &&& final(self).expos == digit_end(s, start)
                        &&& final(self).expos > old(self).expos
                        &&& final(self).col == old(self).col + run.len()
                        &&& final(self).line == old(self).line
                        &&& final(self).well_formed(s)
                        &&& final(self).pending(s) == old(self).pending(s)
                    },
                    Err(e) => {
                        &&& digits_value(run) > i32::MAX
                        &&& e@ == ErrorModel {
                            kind: ErrorKind::NumericOverflow,
                            line: old(self).line as int,
                            col: old(self).col as int,
                            found: run,
                        }
                        &&& lex_from(s, start, old(self).line as int, old(self).col as int) == Err::<
                            Seq<TokenView>,
                            ErrorModel,
                        >(e@)
                        &&& *final(self) == *old(self)
                    },
                }
            }),
    {
        let ghost s = content@;
        let start = self.expos;
        proof {
            lemma_digit_end(s, start as int);
        }
        let mut j = start;
        while j < n && is_digit_char(content.get_char(j))
            invariant
                n == s.len(),
                s == content@,
                start <= j <= n,
                *self == *old(self),
                start == old(self).expos,
                digit_end(s, j as int) == digit_end(s, start as int),
            decreases n - j,
        {
            j = j + 1;
        }
        assert(j == digit_end(s, start as int));
        let mut v: i64 = 0;
        let mut k = start;
        while k < j
            invariant
                n == s.len(),
                s == content@,
                start <= k <= j <= n,
                *self == *old(self),
                start == old(self).expos,
                j == digit_end(s, start as int),
                forall|x: int| start <= x < j ==> is_digit(#[trigger] s[x]),
                0 <= v <= i32::MAX,
                v == digits_value(s.subrange(start as int, k as int)),
            decreases j - k,
        {
            let c = content.get_char(k);
            let d = (c as u32 - '0' as u32) as i64;
            assert(s.subrange(start as int, k + 1).drop_last() =~= s.subrange(start as int, k as int));
            let next = v * 10 + d;
            if next > i32::MAX as i64 {
                proof {
                    assert(digits_value(s.subrange(start as int, k + 1)) == next);
                    lemma_digits_grow(s, start as int, k + 1, j as int);
                    assert(digits_value(s.subrange(start as int, j as int)) > i32::MAX);
                }
                let found = content.substring_char(start, j).to_owned();
                let e = LangError { kind: ErrorKind::NumericOverflow, line: self.line, col: self.col, found };
                assert(e@.found == s.subrange(start as int, j as int));
                assert(lex_from(s, start as int, self.line as int, self.col as int) == Err::<Seq<TokenView>, ErrorModel>(e@));
                return Err(e);
            }
            v = next;
            k = k + 1;
        }
        let ghost tok = Token { token_type: TokenType::Number(v as i32), line: self.line, col: self.col };
        let ghost old_views = token_views(self.tokens@);
        self.add_token(TokenType::Number(v as i32));
        proof {
            assert(token_views(self.tokens@) =~= old_views.push(tok@));
            lemma_pending_push(old_views, tok@, lex_from(s, j as int, self.line as int, (self.col + (j - start)) as int));
        }
        self.col = self.col + (j - start);
        self.expos = j;
        Ok(())
    }

    /// Reads the word at the cursor as one `Word` token.
    fn word_reader(&mut self, content: &str, n: usize)
        requires
            old(self).well_formed(content@),
            n == content@.len(),
            old(self).expos < n,
            !is_digit(content@[old(self).expos as int]),
            starts_word(content@[old(self).expos as int]),
        ensures
            ({
                let s = content@;
                let start = old(self).expos as int;
                let end = word_end(s, start + 1);
                &&& final(self).tokens@.len() == old(self).tokens@.len() + 1
                &&& final(self).tokens@.drop_last() == old(self).tokens@
                &&& final(self).tokens@.last()@ == (TokenView {
                    kind: Lexeme::Word(s.subrange(start, end)),
                    line: old(self).line as int,
                    col: old(self).col as int,
                })
                &&& final(self).expos == end
                &&& final(self).col == old(self).col + (end - start)
                &&& final(self).line == old(self).line
            }),
            final(self).well_formed(content@),
            final(self).pending(content@) == old(self).pending(content@),
            final(self).expos > old(self).expos,
    {
        let ghost s = content@;
        let start = self.expos;
        proof {
            lemma_word_end(s, start + 1);
        }
        let mut j = start + 1;
        while j < n && is_word_char(content.get_char(j))
            invariant
                n == s.len(),
                s == content@,
                start < j <= n,
                word_end(s, j as int) == word_end(s, start + 1),
            decreases n - j,
        {
            j = j + 1;
        }
        let text = content.substring_char(start, j).to_owned();
        let ghost tok = Token { token_type: TokenType::Word(text), line: self.line, col: self.col };
        let ghost old_views = token_views(self.tokens@);
        self.add_token(TokenType::Word(text));
        proof {
            assert(token_views(self.tokens@) =~= old_views.push(tok@));
            lemma_pending_push(old_views, tok@, lex_from(s, j as int, self.line as int, (self.col + (j - start)) as int));
        }
        self.col = self.col + (j - start);
        self.expos = j;
    }

    /// Skips the run of whitespace at the cursor, counting lines and columns.
    fn whitespaces_reader(&mut self, content: &str, n: usize)
        requires
            old(self).well_formed(content@),
            n == content@.len(),
            old(self).expos < n,
            is_space(content@[old(self).expos as int]),
        ensures
            final(self).expos == space_end(content@, old(self).expos as int),
            (final(self).line as int, final(self).col as int) == advance(
                content@.subrange(old(self).expos as int, final(self).expos as int),
                old(self).line as int,
                old(self).col as int,
            ),
            final(self).tokens@ == old(self).tokens@,
            final(self).well_formed(content@),
            final(self).pending(content@) == old(self).pending(content@),
            final(self).expos > old(self).expos,
    {
        let ghost s = content@;
        let ghost start = self.expos;
        proof {
            lemma_space_end(s, start as int);
        }
        while self.expos < n && is_space_char(content.get_char(self.expos))
            invariant
                n == s.len(),
                s == content@,
                self.well_formed(s),
                self.pending(s) == old(self).pending(s),
                start == old(self).expos,
                self.expos >= start,
                self.expos == start ==> is_space(s[start as int]),
                self.tokens@ == old(self).tokens@,
                space_end(s, self.expos as int) == space_end(s, start as int),
                (self.line as int, self.col as int) == advance(
                    s.subrange(start as int, self.expos as int),
                    old(self).line as int,
                    old(self).col as int,
                ),
            decreases n - self.expos,
        {
            let ghost before = s.subrange(start as int, self.expos as int);
            assert(s.subrange(start as int, self.expos + 1).drop_last() =~= before);
            if content.get_char(self.expos) == '\n' {
                self.col = 0;
                self.line = self.line + 1;
            } else {
                self.col = self.col + 1;
            }
            self.expos = self.expos + 1;
        }
    }

    /// Lexes `content` from its start, replacing the tokens held before.
    /// On success the tokens are those of `lexed(content@)`; on failure they are
    /// cleared and the error is the one `lexed` reports.
    pub fn lex(&mut self, content: &str) -> (r: Result<(), LangError>)
        requires
            content@.len() < usize::MAX,
        ensures
            match r {
                Ok(()) => lexed(content@) == Ok::<Seq<TokenView>, ErrorModel>(
                    token_views(final(self).tokens@),
                ),
                Err(e) => lexed(content@) == Err::<Seq<TokenView>, ErrorModel>(e@)
                    && final(self).tokens@.len() == 0,
            },
    {
        let ghost s = content@;
        let n = content.unicode_len();
        self.tokens = Vec::new();
        self.line = 1;
        self.col = 0;
        self.expos = 0;
        assert(token_views(self.tokens@) =~= seq![]);
        assert(self.pending(s) == lexed(s)) by {
            match lexed(s) {
                Ok(xs) => assert(seq![] + xs =~= xs),
                Err(_) => {},
            }
        }
        while self.expos < n
            invariant
                n == s.len(),
                s == content@,
                self.well_formed(s),
                self.pending(s) == lexed(s),
            decreases n - self.expos,
        {
            let c = content.get_char(self.expos);
            if is_digit_char(c) {
                match self.number_reader(content, n) {
                    Ok(()) => {},
                    Err(e) => {
                        self.tokens = Vec::new();
                        return Err(e);
                    },
                }
            } else if is_word_start(c) {
                self.word_reader(content, n);
            } else if let Some(op) = lookup_operator(c) {
                let ghost tok = Token { token_type: TokenType::Operator(op), line: self.line, col: self.col };
                let ghost old_views = token_views(self.tokens@);
                self.add_token(TokenType::Operator(op));
                proof {
                    assert(token_views(self.tokens@) =~= old_views.push(tok@));
                    lemma_pending_push(old_views, tok@, lex_from(s, self.expos + 1, self.line as int, self.col + 1));
                }
                self.expos = self.expos + 1;
                self.col = self.col + 1;
            } else if is_space_char(c) {
                self.whitespaces_reader(content, n);
            } else {
                let found = content.substring_char(self.expos, self.expos + 1).to_owned();
                proof {
                    assert(found@ =~= seq![c]);
                }
                let e = LangError { kind: ErrorKind::UnknownToken, line: self.line, col: self.col, found };
                self.tokens = Vec::new();
                return Err(e);
            }
        }
        assert(token_views(self.tokens@) + seq![] =~= token_views(self.tokens@));
        Ok(())
    }
}

} // verus!
