use vstd::prelude::*;

verus! {

/// The classes of lexical units.
#[derive(Clone, Copy, Debug, PartialEq, Eq, Structural)]
pub enum TokenKind {
    Number,
    Ident,
    Add,
    Sub,
    Mul,
    Div,
    Mod,
    Semicolon,
    Dump,
    Del,
    Eq,
    Neq,
    Gt,
    Lt,
    Gte,
    Lte,
    If,
    Else,
    End,
    Fn,
    Call,
    Do,
    For,
    In,
}

/// A classified token together with the text it was matched on.
#[derive(Debug)]
pub struct Token {
    pub kind: TokenKind,
    pub text: Vec<char>,
}

impl View for Token {
    type V = (TokenKind, Seq<char>);

    open spec fn view(&self) -> (TokenKind, Seq<char>) {
        (self.kind, self.text@)
    }
}

/// A character that matches no token production, at the given position.
#[derive(Clone, Copy, Debug, PartialEq, Eq, Structural)]
pub struct LexError {
    pub position: usize,
}

pub open spec fn tokens_view(ts: Seq<Token>) -> Seq<(TokenKind, Seq<char>)> {
    ts.map_values(|t: Token| t@)
}

pub open spec fn is_digit(c: char) -> bool {
    '0' <= c && c <= '9'
}

pub open spec fn is_letter(c: char) -> bool {
    ('a' <= c && c <= 'z') || ('A' <= c && c <= 'Z')
}

pub open spec fn is_blank(c: char) -> bool {
    c == ' ' || c == '\t' || c == '\n' || c == '\x0C'
}

/// The end of the run of digits that starts at `p`.
pub open spec fn digits_end(s: Seq<char>, p: int) -> int
    decreases s.len() - p,
{
    if 0 <= p < s.len() && is_digit(s[p]) {
        digits_end(s, p + 1)
    } else {
        p
    }
}

/// The end of the run of letters that starts at `p`.
pub open spec fn letters_end(s: Seq<char>, p: int) -> int
    decreases s.len() - p,
{
    if 0 <= p < s.len() && is_letter(s[p]) {
        letters_end(s, p + 1)
    } else {
        p
    }
}

/// The kind of a word made of letters: a keyword, or else an identifier.
pub open spec fn word_kind(w: Seq<char>) -> TokenKind {
    if w == seq!['d', 'e', 'l'] {
        TokenKind::Del
    } else if w == seq!['i', 'f'] {
        TokenKind::If
    } else if w == seq!['e', 'l', 's', 'e'] {
        TokenKind::Else
    } else if w == seq!['e', 'n', 'd'] {
        TokenKind::End
    } else if w == seq!['f', 'n'] {
        TokenKind::Fn
    } else if w == seq!['d', 'o'] {
        TokenKind::Do
    } else if w == seq!['f', 'o', 'r'] {
        TokenKind::For
    } else if w == seq!['i', 'n'] {
        TokenKind::In
    } else {
        TokenKind::Ident
    }
}

/// The single-character tokens.
pub open spec fn single_kind(c: char) -> Option<TokenKind> {
    if c == '+' {
        Some(TokenKind::Add)
    } else if c == '-' {
        Some(TokenKind::Sub)
    } else if c == '*' {
        Some(TokenKind::Mul)
    } else if c == '/' {
        Some(TokenKind::Div)
    } else if c == '%' {
        Some(TokenKind::Mod)
    } else if c == ';' {
        Some(TokenKind::Semicolon)
    } else if c == '$' {
        Some(TokenKind::Dump)
    } else {
        None
    }
}

pub open spec fn next_is(s: Seq<char>, p: int, c: char) -> bool {
    0 <= p < s.len() && s[p] == c
}

/// The longest token that starts at `p` (a non-blank character), as its kind
/// and the position just past it; `None` where no production matches.
pub open spec fn lex_at(s: Seq<char>, p: int) -> Option<(TokenKind, int)> {
    let c = s[p];
    if is_digit(c) {
        Some((TokenKind::Number, digits_end(s, p)))
    } else if is_letter(c) {
        let q = letters_end(s, p);
        if next_is(s, q, '(') && next_is(s, q + 1, ')') {
            Some((TokenKind::Call, q + 2))
        } else {
            Some((word_kind(s.subrange(p, q)), q))
        }
    } else if single_kind(c) is Some {
        Some((single_kind(c)->0, p + 1))
    } else if c == '=' {
        if next_is(s, p + 1, '=') {
            Some((TokenKind::Eq, p + 2))
        } else {
            None
        }
    } else if c == '!' {
        if next_is(s, p + 1, '=') {
            Some((TokenKind::Neq, p + 2))
        } else {
            None
        }
    } else if c == '>' {
        if next_is(s, p + 1, '=') {
            Some((TokenKind::Gte, p + 2))
        } else {
            Some((TokenKind::Gt, p + 1))
        }
    } else if c == '<' {
        if next_is(s, p + 1, '=') {
            Some((TokenKind::Lte, p + 2))
        } else {
            Some((TokenKind::Lt, p + 1))
        }
    } else {
        None
    }
}

/// The tokens of `s` from position `p` on, blanks skipped; or the position of
/// the first character that no production matches.
pub open spec fn scan_from(s: Seq<char>, p: int) -> Result<Seq<(TokenKind, Seq<char>)>, int>
    decreases s.len() - p,
{
    if p < 0 || p >= s.len() {
        Ok(seq![])
    } else if is_blank(s[p]) {
        scan_from(s, p + 1)
    } else {
        match lex_at(s, p) {
            None => Err(p),
            Some((k, e)) => {
                if e <= p || e > s.len() {
                    Err(p)
                } else {
                    match scan_from(s, e) {
                        Ok(rest) => Ok(seq![(k, s.subrange(p, e))] + rest),
                        Err(q) => Err(q),
                    }
                }
            },
        }
    }
}

/// The tokens of the whole text.
pub open spec fn scan_spec(s: Seq<char>) -> Result<Seq<(TokenKind, Seq<char>)>, int> {
    scan_from(s, 0)
}

pub open spec fn prepend<T, E>(pre: Seq<T>, r: Result<Seq<T>, E>) -> Result<Seq<T>, E> {
    match r {
        Ok(x) => Ok(pre + x),
        Err(e) => Err(e),
    }
}

pub(crate) proof fn lemma_digits_end(s: Seq<char>, p: int)
    requires
        0 <= p <= s.len(),
    ensures
        p <= digits_end(s, p) <= s.len(),
        forall|i: int| p <= i < digits_end(s, p) ==> is_digit(#[trigger] s[i]),
    decreases s.len() - p,
{
    if p < s.len() && is_digit(s[p]) {
        lemma_digits_end(s, p + 1);
    }
}

pub(crate) proof fn lemma_letters_end(s: Seq<char>, p: int)
    requires
        0 <= p <= s.len(),
    ensures
        p <= letters_end(s, p) <= s.len(),
        forall|i: int| p <= i < letters_end(s, p) ==> is_letter(#[trigger] s[i]),
    decreases s.len() - p,
{
    if p < s.len() && is_letter(s[p]) {
        lemma_letters_end(s, p + 1);
    }
}

fn digit_run_end(s: &Vec<char>, p: usize) -> (q: usize)
    requires
        p <= s@.len(),
    ensures
        q == digits_end(s@, p as int),
{
    let mut q = p;
    while q < s.len() && '0' <= s[q] && s[q] <= '9'
        invariant
            p <= q <= s@.len(),
            digits_end(s@, p as int) == digits_end(s@, q as int),
        decreases s@.len() - q,
    {
        q = q + 1;
    }
    q
}

fn letter_run_end(s: &Vec<char>, p: usize) -> (q: usize)
    requires
        p <= s@.len(),
    ensures
        q == letters_end(s@, p as int),
{
    let mut q = p;
    while q < s.len() && (('a' <= s[q] && s[q] <= 'z') || ('A' <= s[q] && s[q] <= 'Z'))
        invariant
            p <= q <= s@.len(),
            letters_end(s@, p as int) == letters_end(s@, q as int),
        decreases s@.len() - q,
    {
        q = q + 1;
    }
    q
}

fn chars_equal(s: &Vec<char>, p: usize, q: usize, w: &[char]) -> (r: bool)
    requires
        p <= q <= s@.len(),
    ensures
        r == (s@.subrange(p as int, q as int) == w@),
{
    if q - p != w.len() {
        return false;
    }
    let mut i: usize = 0;
    while i < w.len()
        invariant
            p <= q <= s@.len(),
            q - p == w@.len(),
            i <= w@.len(),
            forall|j: int| 0 <= j < i ==> s@[p + j] == w@[j],
        decreases w@.len() - i,
    {
        if s[p + i] != w[i] {
            assert(s@.subrange(p as int, q as int)[i as int] != w@[i as int]);
            return false;
        }
        i = i + 1;
    }
    assert(s@.subrange(p as int, q as int) =~= w@);
    true
}

fn word_kind_of(s: &Vec<char>, p: usize, q: usize) -> (k: TokenKind)
    requires
        p <= q <= s@.len(),
    ensures
        k == word_kind(s@.subrange(p as int, q as int)),
{
    let ghost w = s@.subrange(p as int, q as int);
    if chars_equal(s, p, q, &['d', 'e', 'l']) {
        assert(w == seq!['d', 'e', 'l']);
        TokenKind::Del
    } else if chars_equal(s, p, q, &['i', 'f']) {
        TokenKind::If
    } else if chars_equal(s, p, q, &['e', 'l', 's', 'e']) {
        TokenKind::Else
    } else if chars_equal(s, p, q, &['e', 'n', 'd']) {
        TokenKind::End
    } else if chars_equal(s, p, q, &['f', 'n']) {
        TokenKind::Fn
    } else if chars_equal(s, p, q, &['d', 'o']) {
        TokenKind::Do
    } else if chars_equal(s, p, q, &['f', 'o', 'r']) {
        TokenKind::For
    } else if chars_equal(s, p, q, &['i', 'n']) {
        TokenKind::In
    } else {
        TokenKind::Ident
    }
}


fn followed_by(s: &Vec<char>, p: usize, c: char) -> (r: bool)
    requires
        p < s@.len(),
    ensures
        r == next_is(s@, p + 1, c),
{
    s.len() - p > 1 && s[p + 1] == c
}

/// The longest token at `p`, as `lex_at` gives it.
fn lex_token(s: &Vec<char>, p: usize) -> (r: Option<(TokenKind, usize)>)
    requires
        p < s@.len(),
    ensures
        match r {
            Some((k, e)) => lex_at(s@, p as int) == Some((k, e as int)) && p < e <= s@.len(),
            None => lex_at(s@, p as int) is None,
        },
{
    let n = s.len();
    assert(p < n);
    let c = s[p];
    if '0' <= c && c <= '9' {
        proof {
            lemma_digits_end(s@, p as int);
            lemma_digits_end(s@, p + 1);
        }
        Some((TokenKind::Number, digit_run_end(s, p)))
    } else if ('a' <= c && c <= 'z') || ('A' <= c && c <= 'Z') {
        proof {
            lemma_letters_end(s@, p as int);
            lemma_letters_end(s@, p + 1);
        }
        let q = letter_run_end(s, p);
        if q < s.len() && s[q] == '(' && followed_by(s, q, ')') {
            Some((TokenKind::Call, q + 2))
        } else {
            Some((word_kind_of(s, p, q), q))
        }
    } else if c == '+' {
        Some((TokenKind::Add, p + 1))
    } else if c == '-' {
        Some((TokenKind::Sub, p + 1))
    } else if c == '*' {
        Some((TokenKind::Mul, p + 1))
    } else if c == '/' {
        Some((TokenKind::Div, p + 1))
    } else if c == '%' {
        Some((TokenKind::Mod, p + 1))
    } else if c == ';' {
        Some((TokenKind::Semicolon, p + 1))
    } else if c == '$' {
        Some((TokenKind::Dump, p + 1))
    } else if c == '=' {
        if followed_by(s, p, '=') {
            Some((TokenKind::Eq, p + 2))
        } else {
            None
        }
    } else if c == '!' {
        if followed_by(s, p, '=') {
            Some((TokenKind::Neq, p + 2))
        } else {
            None
        }
    } else if c == '>' {
        if followed_by(s, p, '=') {
            Some((TokenKind::Gte, p + 2))
        } else {
            Some((TokenKind::Gt, p + 1))
        }
    } else if c == '<' {
        if followed_by(s, p, '=') {
            Some((TokenKind::Lte, p + 2))
        } else {
            Some((TokenKind::Lt, p + 1))
        }
    } else {
        None
    }
}

fn copy_range(s: &Vec<char>, p: usize, e: usize) -> (r: Vec<char>)
    requires
        p <= e <= s@.len(),
    ensures
        r@ == s@.subrange(p as int, e as int),
{
    let mut r: Vec<char> = Vec::new();
    let mut i = p;
    while i < e
        invariant
            p <= i <= e <= s@.len(),
            r@ == s@.subrange(p as int, i as int),
        decreases e - i,
    {
        r.push(s[i]);
        i = i + 1;
        assert(r@ =~= s@.subrange(p as int, i as int));
    }
    r
}

/// Splits source text into tokens, skipping blanks. Fails at the first
/// character that matches no token production.
pub fn scan(s: &Vec<char>) -> (r: Result<Vec<Token>, LexError>)
    ensures
        match r {
            Ok(ts) => scan_spec(s@) == Ok::<_, int>(tokens_view(ts@)),
            Err(e) => scan_spec(s@) == Err::<Seq<(TokenKind, Seq<char>)>, _>(e.position as int),
        },
{
    let mut out: Vec<Token> = Vec::new();
    let mut p: usize = 0;
    while p < s.len()
        invariant
            p <= s@.len(),
            scan_spec(s@) == prepend(tokens_view(out@), scan_from(s@, p as int)),
        decreases s@.len() - p,
    {
        let c = s[p];
        if c == ' ' || c == '\t' || c == '\n' || c == '\x0C' {
            p = p + 1;
        } else {
            match lex_token(s, p) {
                None => {
                    return Err(LexError { position: p });
                },
                Some((k, e)) => {
                    let text = copy_range(s, p, e);
                    let ghost before = tokens_view(out@);
                    out.push(Token { kind: k, text });
                    assert(tokens_view(out@) =~= before + seq![(k, s@.subrange(p as int, e as int))]);
                    proof {
                        let r = scan_from(s@, e as int);
                        match r {
                            Ok(rest) => {
                                assert(before + (seq![(k, s@.subrange(p as int, e as int))] + rest)
                                    =~= tokens_view(out@) + rest);
                            },
                            Err(_) => {},
                        }
                    }
                    p = e;
                },
            }
        }
    }
    assert(tokens_view(out@) + seq![] =~= tokens_view(out@));
    Ok(out)
}

} // verus!
