use vstd::prelude::*;

use crate::error::{ErrorKind, ErrorModel};
use crate::lexer::{
    char_operator, is_space, prepend, digit_end, digit_value, digits_value, in_word, is_digit, lemma_digit_end,
    lemma_digits_nonneg, lemma_word_end, lex_from, lexed, starts_word, word_end,
};
use crate::token::{decimal, digit_char, operator_symbol, render, Lexeme, TokenView};

verus! {

/// A token kind that the lexer can produce: a number in the `i32` range and
/// not negative, a word that starts and continues as words do, any operator.
pub open spec fn lexable(k: Lexeme) -> bool {
    match k {
        Lexeme::Number(n) => 0 <= n <= i32::MAX,
        Lexeme::Word(w) => w.len() > 0 && starts_word(w[0]) && forall|x: int|
            1 <= x < w.len() ==> in_word(#[trigger] w[x]),
        Lexeme::Operator(_) => true,
    }
}

/// Lexing a text twice gives the same result: the tokens are a function of
/// the text alone.
pub proof fn lemma_lex_deterministic(s: Seq<char>, t: Seq<char>)
    requires
        s == t,
    ensures
        lexed(s) == lexed(t),
{
}

proof fn lemma_lex_from_lexable(s: Seq<char>, i: int, line: int, col: int)
    ensures
        lex_from(s, i, line, col) matches Ok(ts) ==> forall|k: int|
            0 <= k < ts.len() ==> lexable(#[trigger] ts[k].kind),
    decreases s.len() - i,
{
    if 0 <= i < s.len() {
        let c = s[i];
        lemma_digit_end(s, i);
        lemma_word_end(s, i + 1);
        if is_digit(c) {
            let j = digit_end(s, i);
            lemma_digits_nonneg(s.subrange(i, j));
            lemma_lex_from_lexable(s, j, line, col + (j - i));
        } else if starts_word(c) {
            let j = word_end(s, i + 1);
            let w = s.subrange(i, j);
            assert forall|x: int| 1 <= x < w.len() implies in_word(#[trigger] w[x]) by {
                assert(w[x] == s[i + x]);
            }
            lemma_lex_from_lexable(s, j, line, col + (j - i));
        } else if char_operator(c) is Some {
            lemma_lex_from_lexable(s, i + 1, line, col + 1);
        } else if c == '\n' {
            lemma_lex_from_lexable(s, i + 1, line + 1, 0);
        } else {
            lemma_lex_from_lexable(s, i + 1, line, col + 1);
        }
    }
}

proof fn lemma_digit_char(d: int)
    requires
        0 <= d < 10,
    ensures
        is_digit(digit_char(d)),
        digit_value(digit_char(d)) == d,
{
}

proof fn lemma_decimal(n: nat)
    ensures
        decimal(n).len() > 0,
        forall|x: int| 0 <= x < decimal(n).len() ==> is_digit(#[trigger] decimal(n)[x]),
        digits_value(decimal(n)) == n,
    decreases n,
{
    if n < 10 {
        lemma_digit_char(n as int);
        assert(decimal(n).drop_last() =~= seq![]);
        assert(digits_value(decimal(n)) == digits_value(seq![]) * 10 + digit_value(digit_char(n as int)));
    } else {
        lemma_decimal(n / 10);
        lemma_digit_char((n % 10) as int);
        let p = decimal(n / 10);
        assert(decimal(n).drop_last() =~= p);
        assert(decimal(n).last() == digit_char((n % 10) as int));
        assert(digits_value(decimal(n)) == (n / 10) as int * 10 + (n % 10) as int);
        assert(n == (n / 10) * 10 + n % 10);
    }
}

/// The printed value of a producible token lexes back to that token alone.
proof fn lemma_render_lexes_back(k: Lexeme)
    requires
        lexable(k),
    ensures
        lexed(render(k)) == Ok::<Seq<TokenView>, ErrorModel>(
            seq![TokenView { kind: k, line: 1, col: 0 }],
        ),
{
    let s = render(k);
    match k {
        Lexeme::Number(n) => {
            lemma_decimal(n as nat);
            lemma_digit_end(s, 0);
            assert(s.subrange(0, s.len() as int) =~= s);
            assert(lex_from(s, s.len() as int, 1, s.len() as int) == Ok::<
                Seq<TokenView>,
                ErrorModel,
            >(seq![]));
            assert(seq![TokenView { kind: k, line: 1, col: 0 }] + seq![] =~= seq![
                TokenView { kind: k, line: 1, col: 0 },
            ]);
        },
        Lexeme::Word(w) => {
            lemma_word_end(s, 1);
            assert(s.subrange(0, s.len() as int) =~= s);
            assert(lex_from(s, s.len() as int, 1, s.len() as int) == Ok::<
                Seq<TokenView>,
                ErrorModel,
            >(seq![]));
            assert(seq![TokenView { kind: k, line: 1, col: 0 }] + seq![] =~= seq![
                TokenView { kind: k, line: 1, col: 0 },
            ]);
        },
        Lexeme::Operator(op) => {
            assert(char_operator(operator_symbol(op)) == Some(op));
            assert(lex_from(s, 1, 1, 1) == Ok::<Seq<TokenView>, ErrorModel>(seq![]));
            assert(seq![TokenView { kind: k, line: 1, col: 0 }] + seq![] =~= seq![
                TokenView { kind: k, line: 1, col: 0 },
            ]);
        },
    }
}

/// Every token of a lexed text, printed and lexed on its own, gives back one
/// token of the same kind and value.
pub proof fn lemma_render_relex(s: Seq<char>, k: int)
    requires
        lexed(s) is Ok,
        0 <= k < lexed(s)->Ok_0.len(),
    ensures
        lexed(render(lexed(s)->Ok_0[k].kind)) == Ok::<Seq<TokenView>, ErrorModel>(
            seq![TokenView { kind: lexed(s)->Ok_0[k].kind, line: 1, col: 0 }],
        ),
{
    lemma_lex_from_lexable(s, 0, 1, 0);
    lemma_render_lexes_back(lexed(s)->Ok_0[k].kind);
}


/// The kinds and values of lexed tokens, their positions left out; of an
/// error, its kind.
pub open spec fn kinds(r: Result<Seq<TokenView>, ErrorModel>) -> Result<Seq<Lexeme>, ErrorKind> {
    match r {
        Ok(ts) => Ok(ts.map_values(|t: TokenView| t.kind)),
        Err(e) => Err(e.kind),
    }
}

/// Lexing two texts one after the other: the first error, else all tokens.
pub open spec fn join(x: Result<Seq<Lexeme>, ErrorKind>, y: Result<Seq<Lexeme>, ErrorKind>) -> Result<
    Seq<Lexeme>,
    ErrorKind,
> {
    match x {
        Err(e) => Err(e),
        Ok(p) => match y {
            Err(e) => Err(e),
            Ok(q) => Ok(p + q),
        },
    }
}

pub open spec fn all_space(w: Seq<char>) -> bool {
    forall|x: int| 0 <= x < w.len() ==> is_space(#[trigger] w[x])
}

proof fn lemma_kinds_prepend(t: TokenView, r: Result<Seq<TokenView>, ErrorModel>)
    ensures
        kinds(prepend(t, r)) == prepend(t.kind, kinds(r)),
{
    if let Ok(ts) = r {
        assert((seq![t] + ts).map_values(|v: TokenView| v.kind) =~= seq![t.kind] + ts.map_values(
            |v: TokenView| v.kind,
        ));
    }
}

proof fn lemma_join_prepend(k: Lexeme, x: Result<Seq<Lexeme>, ErrorKind>, y: Result<Seq<Lexeme>, ErrorKind>)
    ensures
        join(prepend(k, x), y) == prepend(k, join(x, y)),
{
    if let Ok(p) = x {
        if let Ok(q) = y {
            assert(seq![k] + p + q =~= seq![k] + (p + q));
        }
    }
}

/// The kinds of the tokens do not depend on the line and column the lexer starts at.
proof fn lemma_kinds_position_free(s: Seq<char>, i: int, l1: int, c1: int, l2: int, c2: int)
    ensures
        kinds(lex_from(s, i, l1, c1)) == kinds(lex_from(s, i, l2, c2)),
    decreases s.len() - i,
{
    if 0 <= i < s.len() {
        let c = s[i];
        lemma_digit_end(s, i);
        lemma_word_end(s, i + 1);
        if is_digit(c) {
            let j = digit_end(s, i);
            let v = digits_value(s.subrange(i, j));
            if v <= i32::MAX {
                lemma_kinds_position_free(s, j, l1, c1 + (j - i), l2, c2 + (j - i));
                lemma_kinds_prepend(TokenView { kind: Lexeme::Number(v), line: l1, col: c1 }, lex_from(s, j, l1, c1 + (j - i)));
                lemma_kinds_prepend(TokenView { kind: Lexeme::Number(v), line: l2, col: c2 }, lex_from(s, j, l2, c2 + (j - i)));
            }
        } else if starts_word(c) {
            let j = word_end(s, i + 1);
            let k = Lexeme::Word(s.subrange(i, j));
            lemma_kinds_position_free(s, j, l1, c1 + (j - i), l2, c2 + (j - i));
            lemma_kinds_prepend(TokenView { kind: k, line: l1, col: c1 }, lex_from(s, j, l1, c1 + (j - i)));
            lemma_kinds_prepend(TokenView { kind: k, line: l2, col: c2 }, lex_from(s, j, l2, c2 + (j - i)));
        } else if char_operator(c) is Some {
            let k = Lexeme::Operator(char_operator(c)->0);
            lemma_kinds_position_free(s, i + 1, l1, c1 + 1, l2, c2 + 1);
            lemma_kinds_prepend(TokenView { kind: k, line: l1, col: c1 }, lex_from(s, i + 1, l1, c1 + 1));
            lemma_kinds_prepend(TokenView { kind: k, line: l2, col: c2 }, lex_from(s, i + 1, l2, c2 + 1));
        } else if c == '\n' {
            lemma_kinds_position_free(s, i + 1, l1 + 1, 0, l2 + 1, 0);
        } else if is_space(c) {
            lemma_kinds_position_free(s, i + 1, l1, c1 + 1, l2, c2 + 1);
        }
    }
}

proof fn lemma_digit_end_prefix(a: Seq<char>, rest: Seq<char>, i: int)
    requires
        0 <= i <= a.len(),
        rest.len() > 0,
        !is_digit(rest[0]) || (i < a.len() && !is_digit(a.last())),
    ensures
        digit_end(a + rest, i) == digit_end(a, i),
    decreases a.len() - i,
{
    if i < a.len() {
        assert((a + rest)[i] == a[i]);
        if is_digit(a[i]) {
            assert(i == a.len() - 1 ==> a[i] == a.last());
            lemma_digit_end_prefix(a, rest, i + 1);
        }
    } else {
        assert((a + rest)[i] == rest[0]);
    }
}

proof fn lemma_word_end_prefix(a: Seq<char>, rest: Seq<char>, i: int)
    requires
        0 <= i <= a.len(),
        rest.len() > 0,
        !in_word(rest[0]) || (i < a.len() && !in_word(a.last())),
    ensures
        word_end(a + rest, i) == word_end(a, i),
    decreases a.len() - i,
{
    if i < a.len() {
        assert((a + rest)[i] == a[i]);
        if in_word(a[i]) {
            assert(i == a.len() - 1 ==> a[i] == a.last());
            lemma_word_end_prefix(a, rest, i + 1);
        }
    } else {
        assert((a + rest)[i] == rest[0]);
    }
}

proof fn lemma_digit_end_suffix(p: Seq<char>, q: Seq<char>, i: int)
    requires
        p.len() <= i <= p.len() + q.len(),
    ensures
        digit_end(p + q, i) == digit_end(q, i - p.len()) + p.len(),
    decreases p.len() + q.len() - i,
{
    if i < p.len() + q.len() {
        assert((p + q)[i] == q[i - p.len()]);
        lemma_digit_end_suffix(p, q, i + 1);
    }
}

proof fn lemma_word_end_suffix(p: Seq<char>, q: Seq<char>, i: int)
    requires
        p.len() <= i <= p.len() + q.len(),
    ensures
        word_end(p + q, i) == word_end(q, i - p.len()) + p.len(),
    decreases p.len() + q.len() - i,
{
    if i < p.len() + q.len() {
        assert((p + q)[i] == q[i - p.len()]);
        lemma_word_end_suffix(p, q, i + 1);
    }
}

/// Past the end of `p`, lexing `p + q` is lexing `q`.
proof fn lemma_lex_suffix(p: Seq<char>, q: Seq<char>, i: int, line: int, col: int)
    requires
        p.len() <= i,
    ensures
        lex_from(p + q, i, line, col) == lex_from(q, i - p.len(), line, col),
    decreases p.len() + q.len() - i,
{
    let s = p + q;
    let n = p.len() as int;
    if i < s.len() {
        let c = s[i];
        assert(c == q[i - n]);
        lemma_digit_end(s, i);
        lemma_word_end(s, i + 1);
        if is_digit(c) {
            lemma_digit_end_suffix(p, q, i);
            let j = digit_end(s, i);
            assert(s.subrange(i, j) =~= q.subrange(i - n, j - n));
            lemma_lex_suffix(p, q, j, line, col + (j - i));
        } else if starts_word(c) {
            lemma_word_end_suffix(p, q, i + 1);
            let j = word_end(s, i + 1);
            assert(s.subrange(i, j) =~= q.subrange(i - n, j - n));
            lemma_lex_suffix(p, q, j, line, col + (j - i));
        } else if char_operator(c) is Some {
            lemma_lex_suffix(p, q, i + 1, line, col + 1);
        } else if c == '\n' {
            lemma_lex_suffix(p, q, i + 1, line + 1, 0);
        } else if is_space(c) {
            lemma_lex_suffix(p, q, i + 1, line, col + 1);
        }
    }
}

/// Where no token runs across the end of `a`, lexing `a + rest` is lexing
/// `a`, then what `rest` gives.
proof fn lemma_lex_prefix(a: Seq<char>, rest: Seq<char>, i: int, line: int, col: int)
    requires
        0 <= i <= a.len(),
        rest.len() > 0,
        !in_word(rest[0]) || (a.len() > 0 && !in_word(a.last()) && a.last() != '$'),
    ensures
        kinds(lex_from(a + rest, i, line, col)) == join(
            kinds(lex_from(a, i, line, col)),
            kinds(lex_from(a + rest, a.len() as int, 1, 0)),
        ),
    decreases a.len() - i,
{
    let s = a + rest;
    let tail = kinds(lex_from(s, a.len() as int, 1, 0));
    if i == a.len() {
        lemma_kinds_position_free(s, i, line, col, 1, 0);
        if let Ok(ks) = tail {
            assert(seq![] + ks =~= ks);
        }
        assert(kinds(lex_from(a, i, line, col)) == Ok::<Seq<Lexeme>, ErrorKind>(
            seq![].map_values(|t: TokenView| t.kind),
        ));
        assert(seq![].map_values(|t: TokenView| t.kind) =~= seq![]);
    } else {
        let c = s[i];
        assert(c == a[i]);
        assert(i == a.len() - 1 ==> c == a.last());
        lemma_digit_end(s, i);
        lemma_word_end(s, i + 1);
        if is_digit(c) {
            lemma_digit_end_prefix(a, rest, i);
            let j = digit_end(s, i);
            lemma_digit_end(a, i);
            assert(s.subrange(i, j) =~= a.subrange(i, j));
            let v = digits_value(s.subrange(i, j));
            if v <= i32::MAX {
                let t = TokenView { kind: Lexeme::Number(v), line, col };
                lemma_lex_prefix(a, rest, j, line, col + (j - i));
                lemma_kinds_prepend(t, lex_from(s, j, line, col + (j - i)));
                lemma_kinds_prepend(t, lex_from(a, j, line, col + (j - i)));
                lemma_join_prepend(t.kind, kinds(lex_from(a, j, line, col + (j - i))), tail);
            }
        } else if starts_word(c) {
            lemma_word_end_prefix(a, rest, i + 1);
            let j = word_end(s, i + 1);
            lemma_word_end(a, i + 1);
            assert(s.subrange(i, j) =~= a.subrange(i, j));
            let t = TokenView { kind: Lexeme::Word(s.subrange(i, j)), line, col };
            lemma_lex_prefix(a, rest, j, line, col + (j - i));
            lemma_kinds_prepend(t, lex_from(s, j, line, col + (j - i)));
            lemma_kinds_prepend(t, lex_from(a, j, line, col + (j - i)));
            lemma_join_prepend(t.kind, kinds(lex_from(a, j, line, col + (j - i))), tail);
        } else if char_operator(c) is Some {
            let t = TokenView { kind: Lexeme::Operator(char_operator(c)->0), line, col };
            lemma_lex_prefix(a, rest, i + 1, line, col + 1);
            lemma_kinds_prepend(t, lex_from(s, i + 1, line, col + 1));
            lemma_kinds_prepend(t, lex_from(a, i + 1, line, col + 1));
            lemma_join_prepend(t.kind, kinds(lex_from(a, i + 1, line, col + 1)), tail);
        } else if c == '\n' {
            lemma_lex_prefix(a, rest, i + 1, line + 1, 0);
        } else if is_space(c) {
            lemma_lex_prefix(a, rest, i + 1, line, col + 1);
        }
    }
}

/// A run of whitespace yields no token.
proof fn lemma_skip_space(s: Seq<char>, i: int, end: int, line: int, col: int)
    requires
        0 <= i <= end <= s.len(),
        forall|x: int| i <= x < end ==> is_space(#[trigger] s[x]),
    ensures
        kinds(lex_from(s, i, line, col)) == kinds(lex_from(s, end, 1, 0)),
    decreases end - i,
{
    if i == end {
        lemma_kinds_position_free(s, i, line, col, 1, 0);
    } else if s[i] == '\n' {
        lemma_skip_space(s, i + 1, end, line + 1, 0);
    } else {
        lemma_skip_space(s, i + 1, end, line, col + 1);
    }
}

/// Lexing two texts with whitespace between them yields the tokens of the
/// first followed by those of the second (or the first error).
pub proof fn lemma_lex_gap(a: Seq<char>, w: Seq<char>, b: Seq<char>)
    requires
        w.len() > 0,
        all_space(w),
    ensures
        kinds(lexed(a + w + b)) == join(kinds(lexed(a)), kinds(lexed(b))),
{
    let s = a + w + b;
    let rest = w + b;
    assert(s =~= a + rest);
    assert(rest[0] == w[0]);
    assert(!in_word(rest[0]));
    lemma_lex_prefix(a, rest, 0, 1, 0);
    assert forall|x: int| a.len() <= x < a.len() + w.len() implies is_space(#[trigger] s[x]) by {
        assert(s[x] == w[x - a.len()]);
    }
    lemma_skip_space(s, a.len() as int, (a.len() + w.len()) as int, 1, 0);
    lemma_lex_suffix(a + w, b, (a.len() + w.len()) as int, 1, 0);
    assert(s =~= (a + w) + b);
}

/// Replacing one run of whitespace between two texts by another changes
/// the kinds and values of the tokens in no way, only their positions.
pub proof fn lemma_whitespace_invariance(a: Seq<char>, w1: Seq<char>, w2: Seq<char>, b: Seq<char>)
    requires
        w1.len() > 0,
        w2.len() > 0,
        all_space(w1),
        all_space(w2),
    ensures
        kinds(lexed(a + w1 + b)) == kinds(lexed(a + w2 + b)),
{
    lemma_lex_gap(a, w1, b);
    lemma_lex_gap(a, w2, b);
}

/// No token can run from the end of `a` into `b`: one of them is empty, `b`
/// starts with a character that continues no word or number, or `a` ends
/// with one that neither continues nor starts a word.
pub open spec fn token_boundary(a: Seq<char>, b: Seq<char>) -> bool {
    ||| a.len() == 0
    ||| b.len() == 0
    ||| !in_word(b[0])
    ||| (!in_word(a.last()) && a.last() != '$')
}

/// Lexing `a + b` at a token boundary yields the tokens of `a` followed by
/// those of `b` (or the first error).
pub proof fn lemma_lex_split(a: Seq<char>, b: Seq<char>)
    requires
        token_boundary(a, b),
    ensures
        kinds(lexed(a + b)) == join(kinds(lexed(a)), kinds(lexed(b))),
{
    let empty = seq![].map_values(|t: TokenView| t.kind);
    assert(empty =~= seq![]);
    if b.len() == 0 {
        assert(a + b =~= a);
        assert(kinds(lexed(b)) == Ok::<Seq<Lexeme>, ErrorKind>(empty));
        if let Ok(p) = kinds(lexed(a)) {
            assert(p + seq![] =~= p);
        }
    } else if a.len() == 0 {
        assert(a + b =~= b);
        assert(kinds(lexed(a)) == Ok::<Seq<Lexeme>, ErrorKind>(empty));
        if let Ok(q) = kinds(lexed(b)) {
            assert(seq![] + q =~= q);
        }
    } else {
        lemma_lex_prefix(a, b, 0, 1, 0);
        lemma_lex_suffix(a, b, a.len() as int, 1, 0);
    }
}

/// Inserting a run of whitespace at a token boundary, or removing one that
/// stands between two texts at a token boundary, changes the kinds and
/// values of the tokens in no way.
pub proof fn lemma_whitespace_insertion(a: Seq<char>, w: Seq<char>, b: Seq<char>)
    requires
        w.len() > 0,
        all_space(w),
        token_boundary(a, b),
    ensures
        kinds(lexed(a + w + b)) == kinds(lexed(a + b)),
{
    lemma_lex_gap(a, w, b);
    lemma_lex_split(a, b);
}

} // verus!
