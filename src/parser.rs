use vstd::prelude::*;
use crate::scanner::{
    Token, TokenKind, scan, scan_spec, scan_from, lex_at, tokens_view, prepend, is_digit,
    lemma_digits_end, lemma_letters_end,
};
use crate::command::{Command, Cmd, model, models, names_model, lemma_models_push};

verus! {

/// Why source text could not be turned into a command tree.
#[derive(Clone, Copy, Debug, PartialEq, Eq, Structural)]
pub enum SyntaxError {
    /// A character at this position matches no token production.
    Lex(usize),
    /// An integer literal does not fit in an `i32`.
    NumberOutOfRange,
    /// `del`, `fn` or `for` is not followed by an identifier.
    ExpectedIdent,
    /// The loop variable of `for` is not followed by `in`.
    ExpectedIn,
    /// `in` is not followed by a number or an identifier.
    ExpectedBound,
    /// The parameter list of `fn` does not end with `do`.
    ExpectedDo,
    /// An `end` that closes no block.
    UnmatchedEnd,
    /// A block that is never closed by its `end`.
    MissingEnd,
}

pub type Toks = Seq<(TokenKind, Seq<char>)>;

pub open spec fn digit_value(c: char) -> int {
    (c as u32) as int - ('0' as u32) as int
}

/// The value of a decimal literal.
pub open spec fn digits_value(t: Seq<char>) -> int
    decreases t.len(),
{
    if t.len() == 0 {
        0
    } else {
        digits_value(t.drop_last()) * 10 + digit_value(t.last())
    }
}

pub open spec fn number_value(t: Seq<char>) -> Option<i32> {
    if digits_value(t) <= i32::MAX {
        Some(digits_value(t) as i32)
    } else {
        None
    }
}

/// The keywords that open a block closed by `end`.
pub open spec fn is_opener(k: TokenKind) -> bool {
    k == TokenKind::If || k == TokenKind::Else || k == TokenKind::Fn || k == TokenKind::For
}

/// The position of the `end` that closes a block whose body starts at `i`,
/// with `d` blocks opened inside it and not yet closed; `hi` where there is
/// none in `[i, hi)`.
pub open spec fn matching_end(ts: Toks, i: int, hi: int, d: nat) -> int
    decreases hi - i,
{
    if i >= hi {
        hi
    } else if ts[i].0 == TokenKind::End {
        if d == 0 {
            i
        } else {
            matching_end(ts, i + 1, hi, (d - 1) as nat)
        }
    } else if is_opener(ts[i].0) {
        matching_end(ts, i + 1, hi, d + 1)
    } else {
        matching_end(ts, i + 1, hi, d)
    }
}

/// The position of the `end` that matches a block whose body starts at `i`:
/// each `end` inside the body closes the innermost block opened there.
pub open spec fn block_end(ts: Toks, i: int, hi: int) -> int {
    matching_end(ts, i, hi, 0)
}

/// The position just past a block body that ends at `e`: past its `end`.
pub open spec fn past_block(e: int, hi: int) -> int {
    if e < hi {
        e + 1
    } else {
        hi
    }
}

/// The position of the first token in `[i, hi)` that is not an identifier.
pub open spec fn idents_end(ts: Toks, i: int, hi: int) -> int
    decreases hi - i,
{
    if i >= hi {
        hi
    } else if ts[i].0 != TokenKind::Ident {
        i
    } else {
        idents_end(ts, i + 1, hi)
    }
}

pub open spec fn texts(ts: Toks) -> Seq<Seq<char>> {
    ts.map_values(|t: (TokenKind, Seq<char>)| t.1)
}

pub open spec fn simple_cmd(k: TokenKind) -> Option<Cmd> {
    match k {
        TokenKind::Add => Some(Cmd::Add),
        TokenKind::Sub => Some(Cmd::Sub),
        TokenKind::Mul => Some(Cmd::Mul),
        TokenKind::Div => Some(Cmd::Div),
        TokenKind::Mod => Some(Cmd::Mod),
        TokenKind::Semicolon => Some(Cmd::End),
        TokenKind::Dump => Some(Cmd::Dump),
        TokenKind::Eq => Some(Cmd::Eq),
        TokenKind::Neq => Some(Cmd::Neq),
        TokenKind::Gt => Some(Cmd::Gt),
        TokenKind::Lt => Some(Cmd::Lt),
        TokenKind::Gte => Some(Cmd::Gte),
        TokenKind::Lte => Some(Cmd::Lte),
        _ => None,
    }
}

pub open spec fn is_ident_at(ts: Toks, i: int, hi: int) -> bool {
    i < hi && ts[i].0 == TokenKind::Ident
}

/// Joins the result of a block body with what follows it, where the block
/// is closed.
pub open spec fn with_body(
    closed: bool,
    body: Result<Seq<Cmd>, SyntaxError>,
    make: spec_fn(Seq<Cmd>) -> Seq<Cmd>,
    rest: Result<Seq<Cmd>, SyntaxError>,
) -> Result<Seq<Cmd>, SyntaxError> {
    if !closed {
        Err(SyntaxError::MissingEnd)
    } else {
        match body {
        Err(e) => Err(e),
            Ok(b) => prepend(make(b), rest),
        }
    }
}

/// The commands of the tokens in `[lo, hi)`. A block keyword takes the tokens
/// up to the first `end` after it as its body.
pub open spec fn parse_span(ts: Toks, lo: int, hi: int) -> Result<Seq<Cmd>, SyntaxError>
    decreases hi - lo,
    via parse_span_decreases
{
    if lo < 0 || lo >= hi || hi > ts.len() {
        Ok(seq![])
    } else {
        let k = ts[lo].0;
        let t = ts[lo].1;
        if k == TokenKind::Number {
            match number_value(t) {
                None => Err(SyntaxError::NumberOutOfRange),
                Some(v) => prepend(seq![Cmd::Push(v)], parse_span(ts, lo + 1, hi)),
            }
        } else if k == TokenKind::Ident {
            prepend(seq![Cmd::Ident(t)], parse_span(ts, lo + 1, hi))
        } else if simple_cmd(k) is Some {
            prepend(seq![simple_cmd(k)->0], parse_span(ts, lo + 1, hi))
        } else if k == TokenKind::Call {
            prepend(seq![Cmd::Call(t.subrange(0, t.len() - 2))], parse_span(ts, lo + 1, hi))
        } else if k == TokenKind::Do || k == TokenKind::In {
            parse_span(ts, lo + 1, hi)
        } else if k == TokenKind::End {
            Err(SyntaxError::UnmatchedEnd)
        } else if k == TokenKind::Del {
            if is_ident_at(ts, lo + 1, hi) {
                prepend(seq![Cmd::Del(ts[lo + 1].1)], parse_span(ts, lo + 2, hi))
            } else {
                Err(SyntaxError::ExpectedIdent)
            }
        } else if k == TokenKind::If || k == TokenKind::Else {
            let e = block_end(ts, lo + 1, hi);
            with_body(
                e < hi,
                parse_span(ts, lo + 1, e),
                |b: Seq<Cmd>|
                    if k == TokenKind::If {
                        seq![Cmd::If(b)]
                    } else {
                        seq![Cmd::Else(b)]
                    },
                parse_span(ts, past_block(e, hi), hi),
            )
        } else if k == TokenKind::Fn {
            if !is_ident_at(ts, lo + 1, hi) {
                Err(SyntaxError::ExpectedIdent)
            } else {
                let pe = idents_end(ts, lo + 2, hi);
                if pe >= hi || ts[pe].0 != TokenKind::Do {
                    Err(SyntaxError::ExpectedDo)
                } else {
                    let e = block_end(ts, pe + 1, hi);
                    with_body(
                        e < hi,
                        parse_span(ts, pe + 1, e),
                        |b: Seq<Cmd>|
                            seq![Cmd::DefFn(ts[lo + 1].1, texts(ts.subrange(lo + 2, pe)), b)],
                        parse_span(ts, past_block(e, hi), hi),
                    )
                }
            }
        } else {
            // `for`
            if !is_ident_at(ts, lo + 1, hi) {
                Err(SyntaxError::ExpectedIdent)
            } else if !(lo + 2 < hi && ts[lo + 2].0 == TokenKind::In) {
                Err(SyntaxError::ExpectedIn)
            } else if !(lo + 3 < hi && (ts[lo + 3].0 == TokenKind::Number || ts[lo + 3].0
                == TokenKind::Ident)) {
                Err(SyntaxError::ExpectedBound)
            } else {
                let var = ts[lo + 1].1;
                let bound = ts[lo + 3];
                let e = block_end(ts, lo + 4, hi);
                if bound.0 == TokenKind::Number {
                    match number_value(bound.1) {
                        None => Err(SyntaxError::NumberOutOfRange),
                        Some(n) => with_body(
                            e < hi,
                            parse_span(ts, lo + 4, e),
                            |b: Seq<Cmd>| seq![Cmd::For(var, Some(n), b)],
                            parse_span(ts, past_block(e, hi), hi),
                        ),
                    }
                } else {
                    with_body(
                        e < hi,
                        parse_span(ts, lo + 4, e),
                        |b: Seq<Cmd>| seq![Cmd::Ident(bound.1), Cmd::For(var, None, b)],
                        parse_span(ts, past_block(e, hi), hi),
                    )
                }
            }
        }
    }
}

pub proof fn lemma_matching_end(ts: Toks, i: int, hi: int, d: nat)
    requires
        i <= hi,
    ensures
        i <= matching_end(ts, i, hi, d) <= hi,
        matching_end(ts, i, hi, d) < hi ==> ts[matching_end(ts, i, hi, d)].0 == TokenKind::End,
    decreases hi - i,
{
    if i < hi {
        if ts[i].0 == TokenKind::End {
            if d > 0 {
                lemma_matching_end(ts, i + 1, hi, (d - 1) as nat);
            }
        } else if is_opener(ts[i].0) {
            lemma_matching_end(ts, i + 1, hi, d + 1);
        } else {
            lemma_matching_end(ts, i + 1, hi, d);
        }
    }
}

proof fn lemma_block_end(ts: Toks, i: int, hi: int)
    requires
        i <= hi,
    ensures
        i <= block_end(ts, i, hi) <= hi,
        block_end(ts, i, hi) < hi ==> ts[block_end(ts, i, hi)].0 == TokenKind::End,
{
    lemma_matching_end(ts, i, hi, 0);
}

proof fn lemma_idents_end(ts: Toks, i: int, hi: int)
    requires
        i <= hi,
    ensures
        i <= idents_end(ts, i, hi) <= hi,
        idents_end(ts, i, hi) < hi ==> ts[idents_end(ts, i, hi)].0 != TokenKind::Ident,
        forall|j: int| i <= j < idents_end(ts, i, hi) ==> (#[trigger] ts[j]).0 == TokenKind::Ident,
    decreases hi - i,
{
    if i < hi && ts[i].0 == TokenKind::Ident {
        lemma_idents_end(ts, i + 1, hi);
    }
}

#[via_fn]
proof fn parse_span_decreases(ts: Toks, lo: int, hi: int) {
    if 0 <= lo < hi {
        lemma_block_end(ts, lo + 1, hi);
        if lo + 4 <= hi {
            lemma_block_end(ts, lo + 4, hi);
        }
        if lo + 2 <= hi {
            lemma_idents_end(ts, lo + 2, hi);
            let pe = idents_end(ts, lo + 2, hi);
            if pe < hi {
                lemma_block_end(ts, pe + 1, hi);
            }
        }
    }
}


/// Relies on `String::push`: the character is appended at the end.
#[verifier::external_body]
fn push_char(s: &mut String, c: char)
    ensures
        final(s)@ == old(s)@.push(c),
{
    s.push(c)
}

/// The characters `t[from..to]` as a `String`.
fn string_of(t: &Vec<char>, from: usize, to: usize) -> (r: String)
    requires
        from <= to <= t@.len(),
    ensures
        r@ == t@.subrange(from as int, to as int),
{
    let mut r = String::new();
    let mut i = from;
    while i < to
        invariant
            from <= i <= to <= t@.len(),
            r@ == t@.subrange(from as int, i as int),
        decreases to - i,
    {
        push_char(&mut r, t[i]);
        i = i + 1;
        assert(r@ =~= t@.subrange(from as int, i as int));
    }
    r
}

pub open spec fn all_digits(t: Seq<char>) -> bool {
    forall|i: int| 0 <= i < t.len() ==> is_digit(#[trigger] t[i])
}

/// What the parser relies on of a token: a number is a non-empty run of
/// digits and a call marker ends in `()`.
pub open spec fn token_ok(t: (TokenKind, Seq<char>)) -> bool {
    &&& t.0 == TokenKind::Number ==> t.1.len() > 0 && all_digits(t.1)
    &&& t.0 == TokenKind::Call ==> t.1.len() >= 2
}

pub open spec fn tokens_ok(ts: Toks) -> bool {
    forall|i: int| 0 <= i < ts.len() ==> token_ok(#[trigger] ts[i])
}

proof fn lemma_digits_value_mono(t: Seq<char>, j: int, k: int)
    requires
        all_digits(t),
        0 <= j <= k <= t.len(),
    ensures
        0 <= digits_value(t.subrange(0, j)) <= digits_value(t.subrange(0, k)),
    decreases k,
{
    if j < k {
        lemma_digits_value_mono(t, j, k - 1);
        assert(t.subrange(0, k).drop_last() =~= t.subrange(0, k - 1));
        assert(is_digit(t[k - 1]));
    } else if k > 0 {
        lemma_digits_value_mono(t, k - 1, k - 1);
        assert(t.subrange(0, k).drop_last() =~= t.subrange(0, k - 1));
        assert(is_digit(t[k - 1]));
    } else {
        assert(t.subrange(0, 0).len() == 0);
    }
}

/// The value of a decimal literal, where it fits in an `i32`.
fn number_of(t: &Vec<char>) -> (r: Option<i32>)
    requires
        all_digits(t@),
    ensures
        r == number_value(t@),
{
    let mut acc: i32 = 0;
    let mut i: usize = 0;
    assert(t@.subrange(0, 0).len() == 0);
    while i < t.len()
        invariant
            i <= t@.len(),
            all_digits(t@),
            acc as int == digits_value(t@.subrange(0, i as int)),
            0 <= acc,
        decreases t@.len() - i,
    {
        assert(is_digit(t@[i as int]));
        let d = (t[i] as u32 - '0' as u32) as i64;
        let next: i64 = acc as i64 * 10 + d;
        assert(t@.subrange(0, i + 1).drop_last() =~= t@.subrange(0, i as int));
        if next > i32::MAX as i64 {
            proof {
                lemma_digits_value_mono(t@, i + 1, t@.len() as int);
                assert(t@.subrange(0, t@.len() as int) =~= t@);
            }
            return None;
        }
        acc = next as i32;
        i = i + 1;
    }
    assert(t@.subrange(0, t@.len() as int) =~= t@);
    Some(acc)
}

fn find_block_end(ts: &Vec<Token>, i: usize, hi: usize) -> (r: usize)
    requires
        i <= hi <= ts@.len(),
    ensures
        r == block_end(tokens_view(ts@), i as int, hi as int),
{
    let mut j = i;
    let mut d: usize = 0;
    while j < hi
        invariant
            i <= j <= hi <= ts@.len(),
            d <= j - i,
            block_end(tokens_view(ts@), i as int, hi as int) == matching_end(
                tokens_view(ts@),
                j as int,
                hi as int,
                d as nat,
            ),
        decreases hi - j,
    {
        let k = ts[j].kind;
        if k == TokenKind::End {
            if d == 0 {
                return j;
            }
            d = d - 1;
        } else if k == TokenKind::If || k == TokenKind::Else || k == TokenKind::Fn || k
            == TokenKind::For {
            d = d + 1;
        }
        j = j + 1;
    }
    hi
}

fn find_idents_end(ts: &Vec<Token>, i: usize, hi: usize) -> (r: usize)
    requires
        i <= hi <= ts@.len(),
    ensures
        r == idents_end(tokens_view(ts@), i as int, hi as int),
{
    let mut j = i;
    while j < hi && ts[j].kind == TokenKind::Ident
        invariant
            i <= j <= hi <= ts@.len(),
            idents_end(tokens_view(ts@), i as int, hi as int) == idents_end(
                tokens_view(ts@),
                j as int,
                hi as int,
            ),
        decreases hi - j,
    {
        j = j + 1;
    }
    j
}

fn names_of(ts: &Vec<Token>, from: usize, to: usize) -> (r: Vec<String>)
    requires
        from <= to <= ts@.len(),
    ensures
        names_model(r@) == texts(tokens_view(ts@).subrange(from as int, to as int)),
{
    let mut r: Vec<String> = Vec::new();
    let mut i = from;
    while i < to
        invariant
            from <= i <= to <= ts@.len(),
            names_model(r@) == texts(tokens_view(ts@).subrange(from as int, i as int)),
        decreases to - i,
    {
        let n = string_of(&ts[i].text, 0, ts[i].text.len());
        assert(ts[i as int].text@.subrange(0, ts[i as int].text@.len() as int) =~= ts[i as int].text@);
        let ghost before = names_model(r@);
        r.push(n);
        assert(names_model(r@) =~= before.push(n@));
        assert(texts(tokens_view(ts@).subrange(from as int, i + 1)) =~= texts(
            tokens_view(ts@).subrange(from as int, i as int),
        ).push(ts@[i as int].text@));
        i = i + 1;
    }
    r
}


proof fn lemma_prepend_assoc(a: Seq<Cmd>, b: Seq<Cmd>, r: Result<Seq<Cmd>, SyntaxError>)
    ensures
        prepend(a, prepend(b, r)) == prepend(a + b, r),
{
    match r {
        Ok(x) => {
            assert(a + (b + x) =~= (a + b) + x);
        },
        Err(_) => {},
    }
}

/// Appends `cs` to `out`, keeping `prepend(models(out), rest)` equal to `total`.
proof fn lemma_step(
    total: Result<Seq<Cmd>, SyntaxError>,
    out: Seq<Command>,
    cs: Seq<Command>,
    rest: Result<Seq<Cmd>, SyntaxError>,
)
    requires
        total == prepend(models(out), prepend(models(cs), rest)),
    ensures
        total == prepend(models(out + cs), rest),
{
    lemma_prepend_assoc(models(out), models(cs), rest);
    lemma_models_concat(out, cs);
}

proof fn lemma_models_concat(a: Seq<Command>, b: Seq<Command>)
    ensures
        models(a + b) == models(a) + models(b),
    decreases b.len(),
{
    if b.len() == 0 {
        assert(a + b =~= a);
        assert(models(a) + models(b) =~= models(a));
    } else {
        lemma_models_concat(a, b.drop_last());
        assert((a + b).drop_last() =~= a + b.drop_last());
        assert(models(a) + models(b) =~= models(a) + models(b.drop_last()) + seq![model(b.last())]);
    }
}

proof fn lemma_models_one(c: Command)
    ensures
        models(seq![c]) == seq![model(c)],
{
    assert(seq![c].drop_last() =~= Seq::<Command>::empty());
    assert(models(Seq::<Command>::empty()) == Seq::<Cmd>::empty());
    assert(Seq::<Cmd>::empty().push(model(c)) =~= seq![model(c)]);
}

proof fn lemma_models_two(c: Command, d: Command)
    ensures
        models(seq![c, d]) == seq![model(c), model(d)],
{
    assert(seq![c, d].drop_last() =~= seq![c]);
    lemma_models_one(c);
}

/// The command of a token that stands alone.
fn simple_command(k: TokenKind) -> (r: Option<Command>)
    ensures
        match r {
            Some(c) => simple_cmd(k) == Some(model(c)),
            None => simple_cmd(k) is None,
        },
{
    match k {
        TokenKind::Add => Some(Command::OpAdd),
        TokenKind::Sub => Some(Command::OpSub),
        TokenKind::Mul => Some(Command::OpMul),
        TokenKind::Div => Some(Command::OpDiv),
        TokenKind::Mod => Some(Command::OpMod),
        TokenKind::Semicolon => Some(Command::OpEnd),
        TokenKind::Dump => Some(Command::OpDump),
        TokenKind::Eq => Some(Command::OpEq),
        TokenKind::Neq => Some(Command::OpNeq),
        TokenKind::Gt => Some(Command::OpGt),
        TokenKind::Lt => Some(Command::OpLt),
        TokenKind::Gte => Some(Command::OpGte),
        TokenKind::Lte => Some(Command::OpLte),
        _ => None,
    }
}

fn whole_string(t: &Vec<char>) -> (r: String)
    ensures
        r@ == t@,
{
    let r = string_of(t, 0, t.len());
    assert(t@.subrange(0, t@.len() as int) =~= t@);
    r
}


/// What one step of the parser owes: the commands of the tokens in
/// `[i, hi)` are `cs` followed by those of `[next, hi)`.
pub open spec fn item_result(
    tv: Toks,
    i: int,
    hi: int,
    r: Result<(Vec<Command>, usize), SyntaxError>,
) -> bool {
    match r {
        Ok((cs, next)) => i < next <= hi && parse_span(tv, i, hi) == prepend(
            models(cs@),
            parse_span(tv, next as int, hi),
        ),
        Err(e) => parse_span(tv, i, hi) == Err::<Seq<Cmd>, _>(e),
    }
}

fn one(c: Command) -> (r: Vec<Command>)
    ensures
        models(r@) == seq![model(c)],
{
    let r = vec![c];
    proof {
        assert(r@ =~= seq![c]);
        lemma_models_one(c);
    }
    r
}

/// An `if` or `else` block at `i`.
fn parse_block(ts: &Vec<Token>, i: usize, hi: usize) -> (r: Result<(Vec<Command>, usize), SyntaxError>)
    requires
        i < hi <= ts@.len(),
        tokens_ok(tokens_view(ts@)),
        ts@[i as int].kind == TokenKind::If || ts@[i as int].kind == TokenKind::Else,
    ensures
        item_result(tokens_view(ts@), i as int, hi as int, r),
    decreases hi - i, 0nat,
{
    let ghost tv = tokens_view(ts@);
    let k = ts[i].kind;
    let e = find_block_end(ts, i + 1, hi);
    proof {
        lemma_block_end(tv, i + 1, hi as int);
    }
    if e >= hi {
        return Err(SyntaxError::MissingEnd);
    }
    match parse_range(ts, i + 1, e) {
        Err(x) => Err(x),
        Ok(b) => {
            let next = if e < hi {
                e + 1
            } else {
                hi
            };
            let c = if k == TokenKind::If {
                Command::CfIf(b)
            } else {
                Command::CfElse(b)
            };
            Ok((one(c), next))
        },
    }
}

/// A function definition at `i`.
fn parse_fn(ts: &Vec<Token>, i: usize, hi: usize) -> (r: Result<(Vec<Command>, usize), SyntaxError>)
    requires
        i < hi <= ts@.len(),
        tokens_ok(tokens_view(ts@)),
        ts@[i as int].kind == TokenKind::Fn,
    ensures
        item_result(tokens_view(ts@), i as int, hi as int, r),
    decreases hi - i, 0nat,
{
    let ghost tv = tokens_view(ts@);
    if !(i + 1 < hi && ts[i + 1].kind == TokenKind::Ident) {
        return Err(SyntaxError::ExpectedIdent);
    }
    let pe = find_idents_end(ts, i + 2, hi);
    proof {
        lemma_idents_end(tv, i + 2, hi as int);
    }
    if pe >= hi || ts[pe].kind != TokenKind::Do {
        return Err(SyntaxError::ExpectedDo);
    }
    let e = find_block_end(ts, pe + 1, hi);
    proof {
        lemma_block_end(tv, pe + 1, hi as int);
    }
    if e >= hi {
        return Err(SyntaxError::MissingEnd);
    }
    match parse_range(ts, pe + 1, e) {
        Err(x) => Err(x),
        Ok(b) => {
            let next = if e < hi {
                e + 1
            } else {
                hi
            };
            let c = Command::CfDFn(whole_string(&ts[i + 1].text), names_of(ts, i + 2, pe), b);
            Ok((one(c), next))
        },
    }
}

/// A loop at `i`.
fn parse_for(ts: &Vec<Token>, i: usize, hi: usize) -> (r: Result<(Vec<Command>, usize), SyntaxError>)
    requires
        i < hi <= ts@.len(),
        tokens_ok(tokens_view(ts@)),
        ts@[i as int].kind == TokenKind::For,
    ensures
        item_result(tokens_view(ts@), i as int, hi as int, r),
    decreases hi - i, 0nat,
{
    let ghost tv = tokens_view(ts@);
    if !(i + 1 < hi && ts[i + 1].kind == TokenKind::Ident) {
        return Err(SyntaxError::ExpectedIdent);
    }
    if !(i + 2 < hi && ts[i + 2].kind == TokenKind::In) {
        return Err(SyntaxError::ExpectedIn);
    }
    if !(i + 3 < hi && (ts[i + 3].kind == TokenKind::Number || ts[i + 3].kind == TokenKind::Ident)) {
        return Err(SyntaxError::ExpectedBound);
    }
    let var = whole_string(&ts[i + 1].text);
    let e = find_block_end(ts, i + 4, hi);
    proof {
        lemma_block_end(tv, i + 4, hi as int);
    }
    let next = if e < hi {
        e + 1
    } else {
        hi
    };
    if ts[i + 3].kind == TokenKind::Number {
        assert(token_ok(tv[i + 3]));
        match number_of(&ts[i + 3].text) {
            None => Err(SyntaxError::NumberOutOfRange),
            Some(_) if e >= hi => Err(SyntaxError::MissingEnd),
            Some(n) => match parse_range(ts, i + 4, e) {
                Err(x) => Err(x),
                Ok(b) => Ok((one(Command::CfFor(var, Some(n), b)), next)),
            },
        }
    } else if e >= hi {
        Err(SyntaxError::MissingEnd)
    } else {
        match parse_range(ts, i + 4, e) {
            Err(x) => Err(x),
            Ok(b) => {
                let c0 = Command::OpIdent(whole_string(&ts[i + 3].text));
                let c1 = Command::CfFor(var, None, b);
                let v = vec![c0, c1];
                proof {
                    assert(v@ =~= seq![c0, c1]);
                    lemma_models_two(c0, c1);
                }
                Ok((v, next))
            },
        }
    }
}

/// The commands of the token at `i` and of those that belong to it.
fn parse_item(ts: &Vec<Token>, i: usize, hi: usize) -> (r: Result<(Vec<Command>, usize), SyntaxError>)
    requires
        i < hi <= ts@.len(),
        tokens_ok(tokens_view(ts@)),
    ensures
        item_result(tokens_view(ts@), i as int, hi as int, r),
    decreases hi - i, 1nat,
{
    let ghost tv = tokens_view(ts@);
    let k = ts[i].kind;
    assert(token_ok(tv[i as int]));
    if k == TokenKind::Number {
        match number_of(&ts[i].text) {
            None => Err(SyntaxError::NumberOutOfRange),
            Some(v) => Ok((one(Command::OpPush(v)), i + 1)),
        }
    } else if k == TokenKind::Ident {
        Ok((one(Command::OpIdent(whole_string(&ts[i].text))), i + 1))
    } else if let Some(c) = simple_command(k) {
        Ok((one(c), i + 1))
    } else if k == TokenKind::Call {
        let n = ts[i].text.len() - 2;
        Ok((one(Command::CfCall(string_of(&ts[i].text, 0, n))), i + 1))
    } else if k == TokenKind::Do || k == TokenKind::In {
        let v: Vec<Command> = Vec::new();
        proof {
            assert(models(v@) == Seq::<Cmd>::empty());
            match parse_span(tv, i + 1, hi as int) {
                Ok(x) => {
                    assert(Seq::<Cmd>::empty() + x =~= x);
                },
                Err(_) => {},
            }
        }
        Ok((v, i + 1))
    } else if k == TokenKind::End {
        Err(SyntaxError::UnmatchedEnd)
    } else if k == TokenKind::Del {
        if i + 1 < hi && ts[i + 1].kind == TokenKind::Ident {
            Ok((one(Command::OpDel(whole_string(&ts[i + 1].text))), i + 2))
        } else {
            Err(SyntaxError::ExpectedIdent)
        }
    } else if k == TokenKind::If || k == TokenKind::Else {
        parse_block(ts, i, hi)
    } else if k == TokenKind::Fn {
        parse_fn(ts, i, hi)
    } else {
        parse_for(ts, i, hi)
    }
}

/// Parses the tokens in `[lo, hi)` into commands, as `parse_span` states.
pub fn parse_range(ts: &Vec<Token>, lo: usize, hi: usize) -> (r: Result<Vec<Command>, SyntaxError>)
    requires
        lo <= hi <= ts@.len(),
        tokens_ok(tokens_view(ts@)),
    ensures
        match r {
            Ok(v) => parse_span(tokens_view(ts@), lo as int, hi as int) == Ok::<_, SyntaxError>(
                models(v@),
            ),
            Err(e) => parse_span(tokens_view(ts@), lo as int, hi as int) == Err::<Seq<Cmd>, _>(e),
        },
    decreases hi - lo, 2nat,
{
    let ghost tv = tokens_view(ts@);
    let ghost total = parse_span(tv, lo as int, hi as int);
    let mut out: Vec<Command> = Vec::new();
    let mut i = lo;
    assert(models(out@) == Seq::<Cmd>::empty());
    assert(total == prepend(models(out@), parse_span(tv, i as int, hi as int))) by {
        match parse_span(tv, i as int, hi as int) {
            Ok(x) => {
                assert(Seq::<Cmd>::empty() + x =~= x);
            },
            Err(_) => {},
        }
    }
    while i < hi
        invariant
            lo <= i <= hi <= ts@.len(),
            tv == tokens_view(ts@),
            tokens_ok(tv),
            total == parse_span(tv, lo as int, hi as int),
            total == prepend(models(out@), parse_span(tv, i as int, hi as int)),
        decreases hi - i,
    {
        match parse_item(ts, i, hi) {
            Err(e) => {
                return Err(e);
            },
            Ok((mut cs, next)) => {
                proof {
                    lemma_step(total, out@, cs@, parse_span(tv, next as int, hi as int));
                }
                out.append(&mut cs);
                i = next;
            },
        }
    }
    proof {
        let o = models(out@);
        assert(o + seq![] =~= o);
    }
    Ok(out)
}


proof fn lemma_scan_ok(s: Seq<char>, p: int)
    requires
        0 <= p,
        scan_from(s, p) is Ok,
    ensures
        tokens_ok(scan_from(s, p)->Ok_0),
    decreases s.len() - p,
{
    if p < s.len() {
        if is_blank_at(s, p) {
            lemma_scan_ok(s, p + 1);
        } else {
            let (k, e) = lex_at(s, p)->0;
            lemma_scan_ok(s, e);
            let rest = scan_from(s, e)->Ok_0;
            let t = s.subrange(p, e);
            lemma_digits_end(s, p);
            lemma_digits_end(s, p + 1);
            lemma_letters_end(s, p);
            lemma_letters_end(s, p + 1);
            if k == TokenKind::Number {
                assert(is_digit(s[p]));
                assert(all_digits(t));
            }
            let all = seq![(k, t)] + rest;
            assert forall|i: int| 0 <= i < all.len() implies token_ok(#[trigger] all[i]) by {
                if i > 0 {
                    assert(all[i] == rest[i - 1]);
                }
            }
        }
    }
}

pub open spec fn is_blank_at(s: Seq<char>, p: int) -> bool {
    crate::scanner::is_blank(s[p])
}

/// The command tree of source text: its tokens, parsed from first to last.
pub open spec fn parse_spec(s: Seq<char>) -> Result<Seq<Cmd>, SyntaxError> {
    match scan_spec(s) {
        Err(p) => Err(SyntaxError::Lex(p as usize)),
        Ok(ts) => parse_span(ts, 0, ts.len() as int),
    }
}

/// Scans and parses source text into a command tree.
pub fn parse_chars(s: &Vec<char>) -> (r: Result<Vec<Command>, SyntaxError>)
    ensures
        match r {
            Ok(v) => parse_spec(s@) == Ok::<_, SyntaxError>(models(v@)),
            Err(e) => parse_spec(s@) == Err::<Seq<Cmd>, _>(e),
        },
{
    match scan(s) {
        Err(e) => Err(SyntaxError::Lex(e.position)),
        Ok(ts) => {
            proof {
                lemma_scan_ok(s@, 0);
                assert(tokens_view(ts@).len() == ts@.len());
            }
            parse_range(&ts, 0, ts.len())
        },
    }
}


/// The characters of a string slice, in order.
fn chars_of(src: &str) -> (r: Vec<char>)
    ensures
        r@ == src@,
{
    let mut r: Vec<char> = Vec::new();
    for c in it: src.chars()
        invariant
            it.seq() == src@,
            r@ == src@.take(it.index() as int),
    {
        r.push(c);
        assert(r@ =~= src@.take(it.index() + 1));
    }
    assert(r@ =~= src@);
    r
}

pub open spec fn main_name() -> Seq<char> {
    seq!['m', 'a', 'i', 'n']
}

/// The program of source text: its command tree followed by a call of `main`.
pub open spec fn program_spec(s: Seq<char>) -> Result<Seq<Cmd>, SyntaxError> {
    match parse_spec(s) {
        Ok(cs) => Ok(cs.push(Cmd::Call(main_name()))),
        Err(e) => Err(e),
    }
}

/// Turns source text into a runnable program.
pub struct Lexer;

impl Lexer {
    /// The command tree of `src`, with a call of `main` appended as the last
    /// command.
    pub fn lex_source(src: &str) -> (r: Result<Vec<Command>, SyntaxError>)
        ensures
            match r {
                Ok(v) => program_spec(src@) == Ok::<_, SyntaxError>(models(v@)),
                Err(e) => program_spec(src@) == Err::<Seq<Cmd>, _>(e),
            },
    {
        let s = chars_of(src);
        match parse_chars(&s) {
            Err(e) => Err(e),
            Ok(mut v) => {
                let mut name = String::new();
                push_char(&mut name, 'm');
                push_char(&mut name, 'a');
                push_char(&mut name, 'i');
                push_char(&mut name, 'n');
                assert(name@ =~= main_name());
                let c = Command::CfCall(name);
                proof {
                    lemma_models_push(v@, c);
                }
                v.push(c);
                Ok(v)
            },
        }
    }
}

} // verus!
